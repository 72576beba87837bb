//! Locations address a node inside a document graph: a base URI reference
//! together with an optional JSON-pointer-style path of segments. A location
//! whose string form carries no fragment is a *root* location and denotes a
//! physically fetchable document; the root form of any location (its *fetch
//! key*) deduplicates physical fetches.

use vstd::prelude::*;

verus! {

/// The mathematical value of a [`NodeLocation`]: the base as a character
/// sequence, the decoded pointer segments, and whether the location is a
/// root (fragment-free) location.
#[verifier::ext_equal]
pub ghost struct LocationView {
    pub base: Seq<char>,
    pub pointer: Seq<Seq<char>>,
    pub root: bool,
}

impl LocationView {
    /// A location is well formed when a root location carries no pointer and
    /// neither the base nor any decoded segment contains the fragment
    /// delimiter, so that the printed form parses back to the same value.
    pub open spec fn wf(self) -> bool {
        &&& self.root ==> self.pointer.len() == 0
        &&& !self.base.contains('#')
        &&& forall|i: int| 0 <= i < self.pointer.len() ==> !(#[trigger] self.pointer[i]).contains('#')
    }
}

/// An addressable position in a document graph.
pub struct NodeLocation {
    base: String,
    pointer: Vec<String>,
    root: bool,
}

impl View for NodeLocation {
    type V = LocationView;

    closed spec fn view(&self) -> LocationView {
        LocationView {
            base: self.base@,
            pointer: self.pointer.deep_view(),
            root: self.root,
        }
    }
}

impl NodeLocation {
    /// Whether this location denotes a physically fetchable document.
    pub fn is_root(&self) -> (r: bool)
        ensures
            r == self@.root,
    {
        self.root
    }

    /// The root form of this location: pointer stripped, fragment dropped.
    /// Two locations with the same root form live in the same document.
    pub fn set_root(&self) -> (r: NodeLocation)
        ensures
            r@ == (LocationView { base: self@.base, pointer: Seq::empty(), root: true }),
            self@.wf() ==> r@.wf(),
    {
        let r = NodeLocation { base: self.base.clone(), pointer: Vec::new(), root: true };
        proof {
            assert(r@.pointer =~~= Seq::<Seq<char>>::empty());
            assert(r@ =~~= (LocationView { base: self@.base, pointer: Seq::empty(), root: true }));
        }
        r
    }

    /// Appends pointer segments, leaving the base untouched. The result is
    /// never a root location: it addresses a node inside the document.
    pub fn push_pointer(&self, segments: Vec<String>) -> (r: NodeLocation)
        ensures
            r@ == (LocationView {
                base: self@.base,
                pointer: self@.pointer + segments.deep_view(),
                root: false,
            }),
    {
        let ghost appended: Seq<Seq<char>> = segments.deep_view();
        let mut pointer = self.pointer.clone();
        let mut rest = segments;
        pointer.append(&mut rest);
        let r = NodeLocation { base: self.base.clone(), pointer, root: false };
        proof {
            assert(r@.pointer =~~= self@.pointer + appended);
            assert(r@ =~~= (LocationView {
                base: self@.base,
                pointer: self@.pointer + appended,
                root: false,
            }));
        }
        r
    }

    /// Structural equality of the mathematical values.
    pub fn same(&self, other: &NodeLocation) -> (r: bool)
        ensures
            r == (self@ == other@),
    {
        if self.root != other.root {
            proof { assert(self@ != other@); }
            return false;
        }
        if !str_eq(self.base.as_str(), other.base.as_str()) {
            proof { assert(self@.base != other@.base); }
            return false;
        }
        if self.pointer.len() != other.pointer.len() {
            proof {
                assert(self@.pointer.len() != other@.pointer.len());
            }
            return false;
        }
        let n = self.pointer.len();
        let mut i: usize = 0;
        while i < n
            invariant
                n == self.pointer.len(),
                n == other.pointer.len(),
                i <= n,
                forall|j: int| 0 <= j < i ==> self.pointer.deep_view()[j] == other.pointer.deep_view()[j],
            decreases n - i,
        {
            if !str_eq(self.pointer[i].as_str(), other.pointer[i].as_str()) {
                proof {
                    assert(self@.pointer[i as int] != other@.pointer[i as int]);
                }
                return false;
            }
            i += 1;
        }
        proof {
            assert(self@.pointer =~~= other@.pointer);
            assert(self@ =~~= other@);
        }
        true
    }
}

/// Errors of [`NodeLocation::parse`]: `InvalidInput` for a malformed
/// fragment, `DecodeError` for a broken pointer escape.
#[derive(Clone, Copy, Debug, PartialEq, Eq, Structural)]
pub enum ParseLocationError {
    InvalidInput,
    DecodeError,
}

/// Index of the first occurrence of `c` in `s`, if any.
pub open spec fn first_at(s: Seq<char>, c: char) -> Option<int>
    decreases s.len(),
{
    if s.len() == 0 {
        None
    } else if s[0] == c {
        Some(0int)
    } else {
        match first_at(s.drop_first(), c) {
            Some(i) => Some(i + 1),
            None => None,
        }
    }
}

pub proof fn lemma_first_at(s: Seq<char>, c: char)
    ensures
        match first_at(s, c) {
            Some(i) => {
                &&& 0 <= i < s.len()
                &&& s[i] == c
                &&& forall|j: int| 0 <= j < i ==> s[j] != c
            },
            None => forall|j: int| 0 <= j < s.len() ==> s[j] != c,
        },
    decreases s.len(),
{
    if s.len() != 0 && s[0] != c {
        lemma_first_at(s.drop_first(), c);
        match first_at(s.drop_first(), c) {
            Some(i) => {
                assert(s[i + 1] == s.drop_first()[i]);
                assert forall|j: int| 0 <= j < i + 1 implies s[j] != c by {
                    if j > 0 {
                        assert(s[j] == s.drop_first()[j - 1]);
                    }
                }
            },
            None => {
                assert forall|j: int| 0 <= j < s.len() implies s[j] != c by {
                    if j > 0 {
                        assert(s[j] == s.drop_first()[j - 1]);
                    }
                }
            },
        }
    }
}

/// The first occurrence index determines `first_at` uniquely.
pub proof fn lemma_first_at_is(s: Seq<char>, c: char, i: int)
    requires
        0 <= i < s.len(),
        s[i] == c,
        forall|j: int| 0 <= j < i ==> s[j] != c,
    ensures
        first_at(s, c) == Some(i),
    decreases s.len(),
{
    if i > 0 {
        lemma_first_at_is(s.drop_first(), c, i - 1);
    }
}

pub proof fn lemma_first_at_none(s: Seq<char>, c: char)
    requires
        forall|j: int| 0 <= j < s.len() ==> s[j] != c,
    ensures
        first_at(s, c) is None,
    decreases s.len(),
{
    if s.len() > 0 {
        lemma_first_at_none(s.drop_first(), c);
    }
}

/// `first_at` over a concatenation whose left part lacks `c`.
pub proof fn lemma_first_at_concat(a: Seq<char>, b: Seq<char>, c: char)
    requires
        !a.contains(c),
    ensures
        first_at(a + b, c) == match first_at(b, c) {
            Some(i) => Some(a.len() + i),
            None => None::<int>,
        },
{
    lemma_first_at(b, c);
    match first_at(b, c) {
        Some(i) => {
            assert(forall|j: int| 0 <= j < a.len() ==> (a + b)[j] != c);
            assert((a + b)[a.len() + i] == c);
            assert(forall|j: int| a.len() <= j < a.len() + i ==> (a + b)[j] == b[j - a.len()] && b[j
                - a.len()] != c);
            lemma_first_at_is(a + b, c, a.len() + i);
        },
        None => {
            assert(forall|j: int| 0 <= j < (a + b).len() ==> (a + b)[j] != c);
            lemma_first_at_none(a + b, c);
        },
    }
}

/// A pointer segment printed into its escaped fragment form: `~` becomes
/// `~0` and `/` becomes `~1`.
pub open spec fn escape_seg(s: Seq<char>) -> Seq<char>
    decreases s.len(),
{
    if s.len() == 0 {
        Seq::empty()
    } else {
        let head: Seq<char> = if s[0] == '~' {
            seq!['~', '0']
        } else if s[0] == '/' {
            seq!['~', '1']
        } else {
            seq![s[0]]
        };
        head + escape_seg(s.drop_first())
    }
}

/// The inverse reading of an escaped segment; a lone or misapplied `~`
/// is a decode error.
pub open spec fn unescape_seg(s: Seq<char>) -> Result<Seq<char>, ParseLocationError>
    decreases s.len(),
{
    if s.len() == 0 {
        Ok(Seq::empty())
    } else if s[0] == '~' {
        if s.len() < 2 {
            Err(ParseLocationError::DecodeError)
        } else if s[1] == '0' {
            match unescape_seg(s.skip(2)) {
                Ok(r) => Ok(seq!['~'] + r),
                Err(e) => Err(e),
            }
        } else if s[1] == '1' {
            match unescape_seg(s.skip(2)) {
                Ok(r) => Ok(seq!['/'] + r),
                Err(e) => Err(e),
            }
        } else {
            Err(ParseLocationError::DecodeError)
        }
    } else {
        match unescape_seg(s.drop_first()) {
            Ok(r) => Ok(seq![s[0]] + r),
            Err(e) => Err(e),
        }
    }
}

pub proof fn lemma_escape_app(a: Seq<char>, b: Seq<char>)
    ensures
        escape_seg(a + b) == escape_seg(a) + escape_seg(b),
    decreases a.len(),
{
    if a.len() == 0 {
        assert(a + b =~= b);
        assert(escape_seg(a) + escape_seg(b) =~= escape_seg(b));
    } else {
        assert((a + b).drop_first() =~= a.drop_first() + b);
        lemma_escape_app(a.drop_first(), b);
        assert(escape_seg(a + b) =~= escape_seg(a) + escape_seg(b));
    }
}

/// Escaping never emits `/`, and emits `#` or `~` only where the input
/// holds `#` or an escape.
pub proof fn lemma_escape_chars(s: Seq<char>)
    ensures
        !escape_seg(s).contains('/'),
        !s.contains('#') ==> !escape_seg(s).contains('#'),
    decreases s.len(),
{
    if s.len() > 0 {
        lemma_escape_chars(s.drop_first());
        let head: Seq<char> = if s[0] == '~' {
            seq!['~', '0']
        } else if s[0] == '/' {
            seq!['~', '1']
        } else {
            seq![s[0]]
        };
        let tail = escape_seg(s.drop_first());
        assert forall|j: int| 0 <= j < escape_seg(s).len() implies escape_seg(s)[j] != '/' by {
            if j >= head.len() {
                assert(escape_seg(s)[j] == tail[j - head.len()]);
                assert(tail.contains(tail[j - head.len()])) by {
                    assert(tail[j - head.len()] == tail[j - head.len()]);
                }
            } else {
                assert(escape_seg(s)[j] == head[j]);
                if s[0] != '~' && s[0] != '/' {
                    assert(s.contains(s[0])) by {
                        assert(s[0] == s[0]);
                    }
                }
            }
        }
        if !s.contains('#') {
            assert(!s.drop_first().contains('#')) by {
                if s.drop_first().contains('#') {
                    let k = choose|k: int|
                        0 <= k < s.drop_first().len() && s.drop_first()[k] == '#';
                    assert(s[k + 1] == '#');
                }
            }
            assert(s[0] != '#') by {
                if s[0] == '#' {
                    assert(s.contains('#'));
                }
            }
            assert forall|j: int| 0 <= j < escape_seg(s).len() implies escape_seg(s)[j] != '#' by {
                if j >= head.len() {
                    assert(escape_seg(s)[j] == tail[j - head.len()]);
                    assert(tail.contains(tail[j - head.len()])) by {
                        assert(tail[j - head.len()] == tail[j - head.len()]);
                    }
                } else {
                    assert(escape_seg(s)[j] == head[j]);
                }
            }
        }
    }
}

/// Unescaping undoes escaping exactly.
pub proof fn lemma_unescape_escape(s: Seq<char>)
    ensures
        unescape_seg(escape_seg(s)) == Ok::<Seq<char>, ParseLocationError>(s),
    decreases s.len(),
{
    if s.len() == 0 {
        assert(unescape_seg(escape_seg(s)) == Ok::<Seq<char>, ParseLocationError>(Seq::empty()));
        assert(s =~= Seq::<char>::empty());
    } else {
        lemma_unescape_escape(s.drop_first());
        let tail = escape_seg(s.drop_first());
        let e = escape_seg(s);
        if s[0] == '~' {
            assert(e =~= seq!['~', '0'] + tail);
            assert(e.skip(2) =~= tail);
            assert(unescape_seg(e) == Ok::<Seq<char>, ParseLocationError>(
                seq!['~'] + s.drop_first(),
            ));
            assert(seq!['~'] + s.drop_first() =~= s);
        } else if s[0] == '/' {
            assert(e =~= seq!['~', '1'] + tail);
            assert(e.skip(2) =~= tail);
            assert(seq!['/'] + s.drop_first() =~= s);
        } else {
            assert(e =~= seq![s[0]] + tail);
            assert(e.drop_first() =~= tail);
            assert(seq![s[0]] + s.drop_first() =~= s);
        }
    }
}

/// Unescaping introduces no `#`.
pub proof fn lemma_unescape_no_hash(s: Seq<char>)
    requires
        !s.contains('#'),
    ensures
        unescape_seg(s) matches Ok(u) ==> !u.contains('#'),
    decreases s.len(),
{
    if s.len() > 0 {
        assert(forall|j: int| 0 <= j < s.len() ==> s[j] != '#') by {
            assert forall|j: int| 0 <= j < s.len() implies s[j] != '#' by {
                if s[j] == '#' {
                    assert(s.contains('#'));
                }
            }
        }
        if s[0] == '~' {
            if s.len() >= 2 && (s[1] == '0' || s[1] == '1') {
                assert(!s.skip(2).contains('#')) by {
                    if s.skip(2).contains('#') {
                        let k = choose|k: int| 0 <= k < s.skip(2).len() && s.skip(2)[k] == '#';
                        assert(s[k + 2] == '#');
                    }
                }
                lemma_unescape_no_hash(s.skip(2));
                if let Ok(u) = unescape_seg(s) {
                    let r = unescape_seg(s.skip(2))->Ok_0;
                    assert forall|j: int| 0 <= j < u.len() implies u[j] != '#' by {
                        if j >= 1 {
                            assert(u[j] == r[j - 1]);
                            assert(r.contains(r[j - 1])) by {
                                assert(r[j - 1] == r[j - 1]);
                            }
                        }
                    }
                    if u.contains('#') {
                        let k = choose|k: int| 0 <= k < u.len() && u[k] == '#';
                    }
                }
            }
        } else {
            assert(!s.drop_first().contains('#')) by {
                if s.drop_first().contains('#') {
                    let k = choose|k: int| 0 <= k < s.drop_first().len() && s.drop_first()[k] == '#';
                    assert(s[k + 1] == '#');
                }
            }
            lemma_unescape_no_hash(s.drop_first());
            if let Ok(u) = unescape_seg(s) {
                let r = unescape_seg(s.drop_first())->Ok_0;
                assert forall|j: int| 0 <= j < u.len() implies u[j] != '#' by {
                    if j >= 1 {
                        assert(u[j] == r[j - 1]);
                        assert(r.contains(r[j - 1])) by {
                            assert(r[j - 1] == r[j - 1]);
                        }
                    }
                }
                if u.contains('#') {
                    let k = choose|k: int| 0 <= k < u.len() && u[k] == '#';
                }
            }
        }
    }
}

/// Splits a character sequence at every `/`. The result always holds one
/// more segment than there are separators; segments may be empty.
pub open spec fn split_slash(s: Seq<char>) -> Seq<Seq<char>>
    decreases s.len(),
{
    match first_at(s, '/') {
        None => seq![s],
        Some(i) => {
            proof {
                lemma_first_at(s, '/');
            }
            seq![s.take(i)] + split_slash(s.skip(i + 1))
        },
    }
}

/// Unescapes every raw segment, failing on the first broken escape.
pub open spec fn unescape_all(segs: Seq<Seq<char>>) -> Result<
    Seq<Seq<char>>,
    ParseLocationError,
>
    decreases segs.len(),
{
    if segs.len() == 0 {
        Ok(Seq::empty())
    } else {
        match unescape_seg(segs[0]) {
            Ok(u) => match unescape_all(segs.drop_first()) {
                Ok(rest) => Ok(seq![u] + rest),
                Err(e) => Err(e),
            },
            Err(e) => Err(e),
        }
    }
}

/// The fragment text of a pointer: `/` followed by the escaped segment,
/// for each segment in turn.
pub open spec fn frag_of(pointer: Seq<Seq<char>>) -> Seq<char>
    decreases pointer.len(),
{
    if pointer.len() == 0 {
        Seq::empty()
    } else {
        seq!['/'] + escape_seg(pointer[0]) + frag_of(pointer.drop_first())
    }
}

/// The printed form of a location: the base, and for a non-root location a
/// `#` followed by the fragment text of its pointer.
pub open spec fn loc_str(v: LocationView) -> Seq<char> {
    if v.root {
        v.base
    } else {
        v.base + seq!['#'] + frag_of(v.pointer)
    }
}

/// Reads a fragment (the text after `#`) into decoded pointer segments.
pub open spec fn parse_frag(f: Seq<char>) -> Result<Seq<Seq<char>>, ParseLocationError> {
    if f.contains('#') {
        Err(ParseLocationError::InvalidInput)
    } else if f.len() == 0 {
        Ok(Seq::empty())
    } else if f[0] != '/' {
        Err(ParseLocationError::InvalidInput)
    } else {
        unescape_all(split_slash(f.drop_first()))
    }
}

/// Reads a location string: everything before the first `#` is the base;
/// without a `#` the location is a root.
pub open spec fn parse_loc(s: Seq<char>) -> Result<LocationView, ParseLocationError> {
    match first_at(s, '#') {
        None => Ok(LocationView { base: s, pointer: Seq::empty(), root: true }),
        Some(i) => match parse_frag(s.skip(i + 1)) {
            Ok(p) => Ok(LocationView { base: s.take(i), pointer: p, root: false }),
            Err(e) => Err(e),
        },
    }
}

/// The canonical written form of a valid location string: what parsing and
/// printing it again yields.
pub open spec fn normalized(s: Seq<char>) -> Seq<char>
    recommends
        parse_loc(s) is Ok,
{
    loc_str(parse_loc(s)->Ok_0)
}

/// A valid location string prints back as its canonical form, and the
/// canonical form is a fixed point: normalizing twice changes nothing.
pub proof fn lemma_normalized_fixed_point(s: Seq<char>)
    requires
        parse_loc(s) is Ok,
    ensures
        normalized(s) == loc_str(parse_loc(s)->Ok_0),
        parse_loc(normalized(s)) is Ok,
        normalized(normalized(s)) == normalized(s),
{
    lemma_parse_wf(s);
    lemma_location_round_trip(parse_loc(s)->Ok_0);
}

/// A parsed location is well formed.
pub proof fn lemma_parse_wf(s: Seq<char>)
    ensures
        parse_loc(s) matches Ok(v) ==> v.wf(),
{
    lemma_first_at(s, '#');
    match first_at(s, '#') {
        None => {
            assert(parse_loc(s)->Ok_0.pointer.len() == 0);
            let v = parse_loc(s)->Ok_0;
            assert(!v.base.contains('#')) by {
                if v.base.contains('#') {
                    let k = choose|k: int| 0 <= k < v.base.len() && v.base[k] == '#';
                }
            }
        },
        Some(i) => {
            if parse_loc(s) is Ok {
                let v = parse_loc(s)->Ok_0;
                assert(!v.base.contains('#')) by {
                    if v.base.contains('#') {
                        let k = choose|k: int| 0 <= k < v.base.len() && v.base[k] == '#';
                        assert(s[k] == '#');
                    }
                }
                let f = s.skip(i + 1);
                assert(!f.contains('#'));
                if f.len() == 0 {
                    assert(v.pointer.len() == 0);
                } else {
                    lemma_split_no_hash(f.drop_first());
                    lemma_unescape_all_no_hash(split_slash(f.drop_first()));
                    assert(!f.drop_first().contains('#')) by {
                        if f.drop_first().contains('#') {
                            let k = choose|k: int|
                                0 <= k < f.drop_first().len() && f.drop_first()[k] == '#';
                            assert(f[k + 1] == '#');
                        }
                    }
                }
            }
        },
    }
}

/// Every segment of a `/`-split of a `#`-free text is `#`-free.
pub proof fn lemma_split_no_hash(s: Seq<char>)
    requires
        !s.contains('#'),
    ensures
        forall|i: int|
            0 <= i < split_slash(s).len() ==> !(#[trigger] split_slash(s)[i]).contains('#'),
    decreases s.len(),
{
    lemma_first_at(s, '/');
    match first_at(s, '/') {
        None => {
            assert(split_slash(s) =~= seq![s]);
        },
        Some(i) => {
            assert(!s.take(i).contains('#')) by {
                if s.take(i).contains('#') {
                    let k = choose|k: int| 0 <= k < s.take(i).len() && s.take(i)[k] == '#';
                    assert(s[k] == '#');
                }
            }
            assert(!s.skip(i + 1).contains('#')) by {
                let t = s.skip(i + 1);
                if t.contains('#') {
                    let k = choose|k: int| 0 <= k < t.len() && #[trigger] t[k] == '#';
                    assert(s[k + i + 1] == '#');
                }
            }
            lemma_split_no_hash(s.skip(i + 1));
            let rest = split_slash(s.skip(i + 1));
            assert(forall|j: int| 0 <= j < rest.len() ==> split_slash(s)[j + 1] == #[trigger] rest[j]);
        },
    }
}

/// Unescaping `#`-free raw segments yields `#`-free segments.
pub proof fn lemma_unescape_all_no_hash(segs: Seq<Seq<char>>)
    requires
        forall|i: int| 0 <= i < segs.len() ==> !(#[trigger] segs[i]).contains('#'),
    ensures
        unescape_all(segs) matches Ok(p) ==> forall|i: int|
            0 <= i < p.len() ==> !(#[trigger] p[i]).contains('#'),
    decreases segs.len(),
{
    if segs.len() > 0 {
        assert(forall|i: int|
            0 <= i < segs.drop_first().len() ==> segs.drop_first()[i] == segs[i + 1]);
        lemma_unescape_all_no_hash(segs.drop_first());
        lemma_unescape_no_hash(segs[0]);
        if let Ok(p) = unescape_all(segs) {
            let rest = unescape_all(segs.drop_first())->Ok_0;
            assert(forall|i: int| 1 <= i < p.len() ==> p[i] == rest[i - 1]);
        }
    }
}

/// Splitting the printed fragment of a pointer recovers the escaped
/// segments.
pub proof fn lemma_split_frag(p: Seq<Seq<char>>)
    requires
        p.len() > 0,
    ensures
        split_slash(frag_of(p).drop_first()) =~= p.map_values(|seg: Seq<char>| escape_seg(seg)),
    decreases p.len(),
{
    let e0 = escape_seg(p[0]);
    let rest = frag_of(p.drop_first());
    let body = frag_of(p).drop_first();
    lemma_escape_chars(p[0]);
    assert(body =~= e0 + rest);
    assert(!e0.contains('/'));
    lemma_first_at_concat(e0, rest, '/');
    if p.len() == 1 {
        assert(rest =~= Seq::<char>::empty());
        lemma_first_at_none(rest, '/');
        assert(first_at(body, '/') is None);
        assert(split_slash(body) =~= seq![body]);
        assert(body =~= e0);
        assert(p.map_values(|seg: Seq<char>| escape_seg(seg)) =~= seq![e0]);
    } else {
        assert(rest.len() > 0 && rest[0] == '/');
        assert(first_at(rest, '/') == Some(0int)) by {
            lemma_first_at_is(rest, '/', 0);
        }
        assert(first_at(body, '/') == Some(e0.len() as int));
        lemma_first_at(body, '/');
        assert(body.take(e0.len() as int) =~= e0);
        assert(body.skip(e0.len() as int + 1) =~= rest.drop_first());
        lemma_split_frag(p.drop_first());
        assert(rest.drop_first() =~= frag_of(p.drop_first()).drop_first());
        assert(split_slash(body) =~= seq![e0] + split_slash(frag_of(p.drop_first()).drop_first()));
        assert(p.drop_first().map_values(|seg: Seq<char>| escape_seg(seg)) =~= p.map_values(
            |seg: Seq<char>| escape_seg(seg),
        ).drop_first());
        assert(split_slash(body) =~= p.map_values(|seg: Seq<char>| escape_seg(seg)));
    }
}

/// Unescaping the escaped segments recovers the segments.
pub proof fn lemma_unescape_all_escape(p: Seq<Seq<char>>)
    ensures
        unescape_all(p.map_values(|seg: Seq<char>| escape_seg(seg))) == Ok::<
            Seq<Seq<char>>,
            ParseLocationError,
        >(p),
    decreases p.len(),
{
    let m = p.map_values(|seg: Seq<char>| escape_seg(seg));
    if p.len() == 0 {
        assert(m.len() == 0);
        assert(unescape_all(m) == Ok::<Seq<Seq<char>>, ParseLocationError>(Seq::empty()));
        assert(p =~= Seq::<Seq<char>>::empty());
    } else {
        lemma_unescape_escape(p[0]);
        lemma_unescape_all_escape(p.drop_first());
        assert(m[0] == escape_seg(p[0]));
        assert(m.drop_first() =~= p.drop_first().map_values(|seg: Seq<char>| escape_seg(seg)));
        assert(seq![p[0]] + p.drop_first() =~= p);
    }
}

/// The fragment text of a `#`-free pointer is `#`-free.
pub proof fn lemma_frag_no_hash(p: Seq<Seq<char>>)
    requires
        forall|i: int| 0 <= i < p.len() ==> !(#[trigger] p[i]).contains('#'),
    ensures
        !frag_of(p).contains('#'),
    decreases p.len(),
{
    if p.len() > 0 {
        assert(forall|i: int| 0 <= i < p.drop_first().len() ==> p.drop_first()[i] == p[i + 1]);
        lemma_frag_no_hash(p.drop_first());
        lemma_escape_chars(p[0]);
        let f = frag_of(p);
        let e0 = escape_seg(p[0]);
        let rest = frag_of(p.drop_first());
        assert forall|j: int| 0 <= j < f.len() implies f[j] != '#' by {
            if j == 0 {
            } else if j < 1 + e0.len() {
                assert(f[j] == e0[j - 1]);
                assert(e0.contains(e0[j - 1])) by {
                    assert(e0[j - 1] == e0[j - 1]);
                }
            } else {
                assert(f[j] == rest[j - 1 - e0.len()]);
                assert(rest.contains(rest[j - 1 - e0.len()])) by {
                    assert(rest[j - 1 - e0.len()] == rest[j - 1 - e0.len()]);
                }
            }
        }
        if f.contains('#') {
            let k = choose|k: int| 0 <= k < f.len() && f[k] == '#';
        }
    }
}

/// Printing a well-formed location and parsing the text yields the same
/// location: locations round-trip through their string form.
pub proof fn lemma_location_round_trip(v: LocationView)
    requires
        v.wf(),
    ensures
        parse_loc(loc_str(v)) == Ok::<LocationView, ParseLocationError>(v),
{
    let s = loc_str(v);
    if v.root {
        assert(s == v.base);
        lemma_first_at_none(s, '#');
        assert(parse_loc(s)->Ok_0 =~= v);
    } else {
        let f = frag_of(v.pointer);
        lemma_frag_no_hash(v.pointer);
        assert(s =~= v.base + (seq!['#'] + f));
        lemma_first_at_concat(v.base, seq!['#'] + f, '#');
        assert(first_at(seq!['#'] + f, '#') == Some(0int)) by {
            lemma_first_at_is(seq!['#'] + f, '#', 0);
        }
        let i = v.base.len() as int;
        assert(first_at(s, '#') == Some(i));
        assert(s.take(i) =~= v.base);
        assert(s.skip(i + 1) =~= f);
        assert(!f.contains('#'));
        if v.pointer.len() == 0 {
            assert(f.len() == 0);
            assert(parse_frag(f) == Ok::<Seq<Seq<char>>, ParseLocationError>(Seq::empty()));
            assert(parse_loc(s)->Ok_0 =~= v);
        } else {
            assert(f[0] == '/');
            lemma_split_frag(v.pointer);
            lemma_unescape_all_escape(v.pointer);
            assert(parse_frag(f) == Ok::<Seq<Seq<char>>, ParseLocationError>(v.pointer));
            assert(parse_loc(s)->Ok_0 =~= v);
        }
    }
}

/// Unfolds `unescape_all` one step.
pub proof fn lemma_unescape_all_cons(segs: Seq<Seq<char>>)
    requires
        segs.len() > 0,
    ensures
        unescape_all(segs) == match unescape_seg(segs[0]) {
            Ok(u) => match unescape_all(segs.drop_first()) {
                Ok(rest) => Ok::<Seq<Seq<char>>, ParseLocationError>(seq![u] + rest),
                Err(e) => Err::<Seq<Seq<char>>, ParseLocationError>(e),
            },
            Err(e) => Err::<Seq<Seq<char>>, ParseLocationError>(e),
        },
{
}

pub proof fn lemma_frag_app(a: Seq<Seq<char>>, b: Seq<Seq<char>>)
    ensures
        frag_of(a + b) == frag_of(a) + frag_of(b),
    decreases a.len(),
{
    if a.len() == 0 {
        assert(a + b =~= b);
        assert(frag_of(a) + frag_of(b) =~= frag_of(b));
    } else {
        assert((a + b).drop_first() =~= a.drop_first() + b);
        lemma_frag_app(a.drop_first(), b);
        assert(frag_of(a + b) =~= frag_of(a) + frag_of(b));
    }
}

pub proof fn lemma_frag_snoc(p: Seq<Seq<char>>, k: int)
    requires
        0 <= k < p.len(),
    ensures
        frag_of(p.take(k + 1)) == frag_of(p.take(k)) + seq!['/'] + escape_seg(p[k]),
{
    reveal_with_fuel(frag_of, 2);
    assert(p.take(k + 1) =~= p.take(k) + seq![p[k]]);
    lemma_frag_app(p.take(k), seq![p[k]]);
    let single: Seq<Seq<char>> = seq![p[k]];
    assert(single.drop_first() =~= Seq::<Seq<char>>::empty());
    assert(frag_of(single) =~= seq!['/'] + escape_seg(p[k]));
    assert(frag_of(p.take(k)) + (seq!['/'] + escape_seg(p[k])) =~= frag_of(p.take(k)) + seq!['/']
        + escape_seg(p[k]));
}

/// Index of the first occurrence of `c` in `s` at or after `from`.
fn find_char(s: &str, from: usize, c: char) -> (r: Option<usize>)
    requires
        from <= s@.len(),
    ensures
        match r {
            Some(j) => {
                &&& from <= j < s@.len()
                &&& s@[j as int] == c
                &&& forall|k: int| from <= k < j ==> s@[k] != c
            },
            None => forall|k: int| from <= k < s@.len() ==> s@[k] != c,
        },
{
    let n = s.unicode_len();
    let mut i: usize = from;
    while i < n
        invariant
            from <= i <= n,
            n == s@.len(),
            forall|k: int| from <= k < i ==> s@[k] != c,
        decreases n - i,
    {
        if s.get_char(i) == c {
            return Some(i);
        }
        i += 1;
    }
    None
}

/// Appends the escaped form of `seg` to `out`.
fn push_escaped(out: &mut String, seg: &str)
    ensures
        final(out)@ == old(out)@ + escape_seg(seg@),
{
    let n = seg.unicode_len();
    let mut i: usize = 0;
    while i < n
        invariant
            i <= n,
            n == seg@.len(),
            out@ == old(out)@ + escape_seg(seg@.take(i as int)),
        decreases n - i,
    {
        let c = seg.get_char(i);
        let ghost pre = out@;
        if c == '~' {
            out.push('~');
            out.push('0');
        } else if c == '/' {
            out.push('~');
            out.push('1');
        } else {
            out.push(c);
        }
        proof {
            let head: Seq<char> = if c == '~' {
                seq!['~', '0']
            } else if c == '/' {
                seq!['~', '1']
            } else {
                seq![c]
            };
            reveal_with_fuel(escape_seg, 2);
            assert(out@ =~= pre + head);
            assert(seg@.take(i + 1) =~= seg@.take(i as int) + seq![c]);
            lemma_escape_app(seg@.take(i as int), seq![c]);
            let single: Seq<char> = seq![c];
            assert(single.drop_first() =~= Seq::<char>::empty());
            assert(escape_seg(single) =~= head);
            assert(out@ =~= old(out)@ + escape_seg(seg@.take(i + 1)));
        }
        i += 1;
    }
    proof {
        assert(seg@.take(n as int) =~= seg@);
    }
}

/// Decodes one raw fragment segment.
fn unescape_segment(seg: &str) -> (r: Result<String, ParseLocationError>)
    ensures
        match unescape_seg(seg@) {
            Ok(u) => r matches Ok(d) && d@ == u,
            Err(e) => r matches Err(e2) && e2 == e,
        },
{
    let n = seg.unicode_len();
    let mut out = String::new();
    let mut pos: usize = 0;
    proof {
        assert(seg@.skip(0) =~= seg@);
        if let Ok(u) = unescape_seg(seg@) {
            assert(out@ + u =~= u);
        }
    }
    while pos < n
        invariant
            pos <= n,
            n == seg@.len(),
            match unescape_seg(seg@.skip(pos as int)) {
                Ok(u) => unescape_seg(seg@) == Ok::<Seq<char>, ParseLocationError>(out@ + u),
                Err(e) => unescape_seg(seg@) == Err::<Seq<char>, ParseLocationError>(e),
            },
        decreases n - pos,
    {
        let ghost rem = seg@.skip(pos as int);
        proof {
            assert(rem[0] == seg@[pos as int]);
        }
        let c = seg.get_char(pos);
        if c == '~' {
            if pos + 1 >= n {
                proof {
                    assert(rem.len() < 2);
                }
                return Err(ParseLocationError::DecodeError);
            }
            let c2 = seg.get_char(pos + 1);
            proof {
                assert(rem[1] == seg@[pos + 1]);
                assert(rem.skip(2) =~= seg@.skip(pos + 2));
            }
            if c2 == '0' {
                let ghost pre = out@;
                out.push('~');
                proof {
                    if let Ok(u2) = unescape_seg(seg@.skip(pos + 2)) {
                        assert(unescape_seg(rem) == Ok::<Seq<char>, ParseLocationError>(
                            seq!['~'] + u2,
                        ));
                        assert(pre + (seq!['~'] + u2) =~= out@ + u2);
                    }
                }
                pos += 2;
            } else if c2 == '1' {
                let ghost pre = out@;
                out.push('/');
                proof {
                    if let Ok(u2) = unescape_seg(seg@.skip(pos + 2)) {
                        assert(unescape_seg(rem) == Ok::<Seq<char>, ParseLocationError>(
                            seq!['/'] + u2,
                        ));
                        assert(pre + (seq!['/'] + u2) =~= out@ + u2);
                    }
                }
                pos += 2;
            } else {
                return Err(ParseLocationError::DecodeError);
            }
        } else {
            let ghost pre = out@;
            out.push(c);
            proof {
                assert(rem.drop_first() =~= seg@.skip(pos + 1));
                if let Ok(u2) = unescape_seg(seg@.skip(pos + 1)) {
                    assert(unescape_seg(rem) == Ok::<Seq<char>, ParseLocationError>(seq![c] + u2));
                    assert(pre + (seq![c] + u2) =~= out@ + u2);
                }
            }
            pos += 1;
        }
    }
    proof {
        assert(seg@.skip(pos as int) =~= Seq::<char>::empty());
        let u = unescape_seg(seg@.skip(pos as int))->Ok_0;
        assert(out@ + u =~= out@);
    }
    Ok(out)
}

impl NodeLocation {
    /// Reads a location from its string form. Everything before the first
    /// `#` is the base; a `#`-free string is a root location; the fragment,
    /// when present, must be empty or a `/`-separated pointer whose segments
    /// use the `~0`/`~1` escapes.
    #[verifier::rlimit(60)]
    pub fn parse(input: &str) -> (r: Result<NodeLocation, ParseLocationError>)
        ensures
            match parse_loc(input@) {
                Ok(v) => r matches Ok(l) && l@ == v && v.wf(),
                Err(e) => r matches Err(e2) && e2 == e,
            },
    {
        proof {
            lemma_parse_wf(input@);
        }
        let n = input.unicode_len();
        let hash = find_char(input, 0, '#');
        match hash {
            None => {
                proof {
                    lemma_first_at_none(input@, '#');
                }
                let r = NodeLocation { base: input.to_owned(), pointer: Vec::new(), root: true };
                proof {
                    assert(r@ =~~= parse_loc(input@)->Ok_0);
                }
                Ok(r)
            },
            Some(h) => {
                proof {
                    lemma_first_at_is(input@, '#', h as int);
                }
                let base = input.substring_char(0, h).to_owned();
                proof {
                    assert(base@ =~= input@.take(h as int));
                }
                let ghost frag = input@.skip(h + 1);
                match find_char(input, h + 1, '#') {
                    Some(_) => {
                        proof {
                            let k = choose|k: int|
                                h + 1 <= k < input@.len() && #[trigger] input@[k] == '#';
                            assert(frag[k - h - 1] == '#');
                            assert(frag.contains('#'));
                        }
                        Err(ParseLocationError::InvalidInput)
                    },
                    None => {
                        proof {
                            assert(!frag.contains('#')) by {
                                if frag.contains('#') {
                                    let k = choose|k: int|
                                        0 <= k < frag.len() && #[trigger] frag[k] == '#';
                                    assert(input@[k + h + 1] == '#');
                                }
                            }
                        }
                        if h + 1 == n {
                            proof {
                                assert(frag.len() == 0);
                            }
                            let r = NodeLocation { base, pointer: Vec::new(), root: false };
                            proof {
                                assert(r@ =~~= parse_loc(input@)->Ok_0);
                            }
                            Ok(r)
                        } else if input.get_char(h + 1) != '/' {
                            proof {
                                assert(frag[0] == input@[h + 1]);
                            }
                            Err(ParseLocationError::InvalidInput)
                        } else {
                            proof {
                                assert(frag[0] == input@[h + 1]);
                            }
                            let ghost body = frag.drop_first();
                            proof {
                                assert(body =~= input@.skip(h + 2));
                            }
                            let mut segs: Vec<String> = Vec::new();
                            let mut cur: usize = h + 2;
                            proof {
                                assert(input@.skip(cur as int) =~= body);
                                assert(frag.len() != 0);
                                match unescape_all(split_slash(body)) {
                                    Ok(u) => {
                                        assert(parse_loc(input@) == Ok::<
                                            LocationView,
                                            ParseLocationError,
                                        >(
                                            LocationView {
                                                base: input@.take(h as int),
                                                pointer: u,
                                                root: false,
                                            },
                                        ));
                                        assert(segs.deep_view() + u =~= u);
                                    },
                                    Err(e) => {
                                        assert(parse_loc(input@) == Err::<
                                            LocationView,
                                            ParseLocationError,
                                        >(e));
                                    },
                                }
                            }
                            loop
                                invariant_except_break
                                    h + 2 <= cur <= n,
                                    n == input@.len(),
                                    parse_loc(input@) == match unescape_all(
                                        split_slash(input@.skip(cur as int)),
                                    ) {
                                        Ok(u) => Ok::<LocationView, ParseLocationError>(
                                            LocationView {
                                                base: input@.take(h as int),
                                                pointer: segs.deep_view() + u,
                                                root: false,
                                            },
                                        ),
                                        Err(e) => Err::<LocationView, ParseLocationError>(e),
                                    },
                                ensures
                                    parse_loc(input@) == Ok::<LocationView, ParseLocationError>(
                                        LocationView {
                                            base: input@.take(h as int),
                                            pointer: segs.deep_view(),
                                            root: false,
                                        },
                                    ),
                                decreases n - cur,
                            {
                                let ghost rem = input@.skip(cur as int);
                                let slash = find_char(input, cur, '/');
                                match slash {
                                    Some(j) => {
                                        proof {
                                            assert(rem[j - cur] == input@[j as int]);
                                            assert(forall|k: int|
                                                0 <= k < j - cur ==> rem[k] == input@[k + cur]
                                                    && input@[k + cur] != '/');
                                            lemma_first_at_is(rem, '/', j - cur);
                                            assert(rem.take(j - cur) =~= input@.subrange(
                                                cur as int,
                                                j as int,
                                            ));
                                            assert(rem.skip(j - cur + 1) =~= input@.skip(j + 1));
                                        }
                                        let raw = input.substring_char(cur, j);
                                        proof {
                                            let ss = split_slash(rem);
                                            assert(ss[0] =~= raw@);
                                            assert(ss.drop_first() =~= split_slash(
                                                input@.skip(j + 1),
                                            ));
                                            lemma_unescape_all_cons(ss);
                                        }
                                        match unescape_segment(raw) {
                                            Ok(dec) => {
                                                let ghost pre = segs.deep_view();
                                                let ghost decv = dec@;
                                                segs.push(dec);
                                                proof {
                                                    assert(segs.deep_view() =~~= pre.push(decv));
                                                    if let Ok(u2) = unescape_all(
                                                        split_slash(input@.skip(j + 1)),
                                                    ) {
                                                        assert(unescape_all(split_slash(rem))
                                                            == Ok::<
                                                            Seq<Seq<char>>,
                                                            ParseLocationError,
                                                        >(seq![decv] + u2));
                                                        assert(pre + (seq![decv] + u2)
                                                            =~= segs.deep_view() + u2);
                                                    }
                                                }
                                                cur = j + 1;
                                            },
                                            Err(e) => {
                                                return Err(e);
                                            },
                                        }
                                    },
                                    None => {
                                        proof {
                                            assert(forall|k: int|
                                                0 <= k < rem.len() ==> rem[k] == input@[k + cur]
                                                    && input@[k + cur] != '/');
                                            lemma_first_at_none(rem, '/');
                                            assert(split_slash(rem) =~= seq![rem]);
                                            assert(rem =~= input@.subrange(cur as int, n as int));
                                        }
                                        let raw = input.substring_char(cur, n);
                                        proof {
                                            let ss = split_slash(rem);
                                            assert(ss[0] =~= raw@);
                                            assert(ss.drop_first() =~= Seq::<Seq<char>>::empty());
                                            lemma_unescape_all_cons(ss);
                                        }
                                        match unescape_segment(raw) {
                                            Ok(dec) => {
                                                let ghost pre = segs.deep_view();
                                                let ghost decv = dec@;
                                                segs.push(dec);
                                                proof {
                                                    assert(segs.deep_view() =~~= pre.push(decv));
                                                    assert(unescape_all(Seq::<Seq<char>>::empty())
                                                        == Ok::<
                                                        Seq<Seq<char>>,
                                                        ParseLocationError,
                                                    >(Seq::empty()));
                                                    assert(unescape_all(split_slash(rem)) == Ok::<
                                                        Seq<Seq<char>>,
                                                        ParseLocationError,
                                                    >(seq![decv] + Seq::empty()));
                                                    assert(pre + (seq![decv] + Seq::empty())
                                                        =~= segs.deep_view());
                                                }
                                                break;
                                            },
                                            Err(e) => {
                                                return Err(e);
                                            },
                                        }
                                    },
                                }
                            }
                            let r = NodeLocation { base, pointer: segs, root: false };
                            proof {
                                assert(r@ =~~= parse_loc(input@)->Ok_0);
                            }
                            Ok(r)
                        }
                    },
                }
            },
        }
    }

    /// Prints the location: the base, and for a non-root location `#`
    /// followed by the escaped pointer segments, `/`-separated.
    pub fn to_string(&self) -> (r: String)
        ensures
            r@ == loc_str(self@),
    {
        let mut out = self.base.clone();
        if self.root {
            return out;
        }
        out.push('#');
        let m = self.pointer.len();
        let mut k: usize = 0;
        proof {
            assert(self@.pointer.take(0) =~= Seq::<Seq<char>>::empty());
            assert(out@ =~= self@.base + seq!['#'] + frag_of(self@.pointer.take(0)));
        }
        while k < m
            invariant
                k <= m,
                m == self.pointer.len(),
                out@ == self@.base + seq!['#'] + frag_of(self@.pointer.take(k as int)),
            decreases m - k,
        {
            out.push('/');
            push_escaped(&mut out, self.pointer[k].as_str());
            proof {
                lemma_frag_snoc(self@.pointer, k as int);
                assert(self@.pointer[k as int] == self.pointer.deep_view()[k as int]);
                assert(out@ =~= self@.base + seq!['#'] + frag_of(self@.pointer.take(k + 1)));
            }
            k += 1;
        }
        proof {
            assert(self@.pointer.take(m as int) =~= self@.pointer);
        }
        out
    }

    /// The string under which this location's document is fetched: the
    /// printed form of its root location.
    pub fn to_fetch_string(&self) -> (r: String)
        ensures
            r@ == self@.base,
            r@ == loc_str(
                LocationView { base: self@.base, pointer: Seq::empty(), root: true },
            ),
    {
        self.base.clone()
    }
}

/// Index of the last occurrence of `c` in `s`, if any.
pub open spec fn last_at(s: Seq<char>, c: char) -> Option<int>
    decreases s.len(),
{
    if s.len() == 0 {
        None
    } else if s[s.len() - 1] == c {
        Some(s.len() - 1)
    } else {
        last_at(s.drop_last(), c)
    }
}

pub proof fn lemma_last_at(s: Seq<char>, c: char)
    ensures
        match last_at(s, c) {
            Some(i) => {
                &&& 0 <= i < s.len()
                &&& s[i] == c
                &&& forall|j: int| i < j < s.len() ==> s[j] != c
            },
            None => forall|j: int| 0 <= j < s.len() ==> s[j] != c,
        },
    decreases s.len(),
{
    if s.len() != 0 && s[s.len() - 1] != c {
        lemma_last_at(s.drop_last(), c);
        match last_at(s.drop_last(), c) {
            Some(i) => {
                assert(s[i] == s.drop_last()[i]);
                assert forall|j: int| i < j < s.len() implies s[j] != c by {
                    if j < s.len() - 1 {
                        assert(s[j] == s.drop_last()[j]);
                    }
                }
            },
            None => {
                assert forall|j: int| 0 <= j < s.len() implies s[j] != c by {
                    if j < s.len() - 1 {
                        assert(s[j] == s.drop_last()[j]);
                    }
                }
            },
        }
    }
}

pub proof fn lemma_last_at_is(s: Seq<char>, c: char, i: int)
    requires
        0 <= i < s.len(),
        s[i] == c,
        forall|j: int| i < j < s.len() ==> s[j] != c,
    ensures
        last_at(s, c) == Some(i),
    decreases s.len(),
{
    if i < s.len() - 1 {
        lemma_last_at_is(s.drop_last(), c, i);
    }
}

pub proof fn lemma_last_at_none(s: Seq<char>, c: char)
    requires
        forall|j: int| 0 <= j < s.len() ==> s[j] != c,
    ensures
        last_at(s, c) is None,
    decreases s.len(),
{
    if s.len() > 0 {
        lemma_last_at_none(s.drop_last(), c);
    }
}

/// Index of the `:` ending a scheme, when the base starts with one.
pub open spec fn scheme_end(b: Seq<char>) -> Option<int> {
    match first_at(b, ':') {
        Some(i) => if i > 0 && (match first_at(b, '/') {
            Some(j) => i < j,
            None => true,
        }) {
            Some(i)
        } else {
            None
        },
        None => None,
    }
}

/// Length of the scheme-and-authority prefix of a base; what follows is its
/// path.
pub open spec fn prefix_end(b: Seq<char>) -> int {
    let sl: int = match scheme_end(b) {
        Some(i) => i + 1,
        None => 0,
    };
    if b.len() >= sl + 2 && b[sl] == '/' && b[sl + 1] == '/' {
        match first_at(b.skip(sl + 2), '/') {
            Some(k) => sl + 2 + k,
            None => b.len() as int,
        }
    } else {
        sl
    }
}

pub proof fn lemma_prefix_end_bounds(b: Seq<char>)
    ensures
        0 <= prefix_end(b) <= b.len(),
{
    lemma_first_at(b, ':');
    match scheme_end(b) {
        Some(i) => {
            let sl = i + 1;
            if b.len() >= sl + 2 && b[sl] == '/' && b[sl + 1] == '/' {
                lemma_first_at(b.skip(sl + 2), '/');
            }
        },
        None => {
            if b.len() >= 2 && b[0] == '/' && b[1] == '/' {
                lemma_first_at(b.skip(2), '/');
            }
        },
    }
}

/// The directory part of a path: everything up to and including the last
/// `/`, or nothing when the path has none.
pub open spec fn dir_of(p: Seq<char>) -> Seq<char> {
    match last_at(p, '/') {
        Some(i) => p.take(i + 1),
        None => Seq::empty(),
    }
}

/// One step of dot-segment removal: `.` is dropped, `..` removes the
/// segment before it where one can be removed, anything else is kept.
pub open spec fn dot_fold(out: Seq<Seq<char>>, rest: Seq<Seq<char>>, absolute: bool) -> Seq<
    Seq<char>,
>
    decreases rest.len(),
{
    if rest.len() == 0 {
        out
    } else {
        let seg = rest[0];
        let out2: Seq<Seq<char>> = if seg == seq!['.'] {
            out
        } else if seg == seq!['.', '.'] {
            if out.len() > (if absolute {
                1int
            } else {
                0int
            }) && out.last() != seq!['.', '.'] {
                out.drop_last()
            } else if absolute {
                out
            } else {
                out.push(seg)
            }
        } else {
            out.push(seg)
        };
        dot_fold(out2, rest.drop_first(), absolute)
    }
}

/// Reassembles segments with `/` between them.
pub open spec fn join_slash(segs: Seq<Seq<char>>) -> Seq<char>
    decreases segs.len(),
{
    if segs.len() == 0 {
        Seq::empty()
    } else if segs.len() == 1 {
        segs[0]
    } else {
        segs[0] + seq!['/'] + join_slash(segs.drop_first())
    }
}

/// Removes `.` and `..` segments from a path, keeping a leading `/`.
pub open spec fn remove_dots(p: Seq<char>) -> Seq<char> {
    if p.len() == 0 {
        p
    } else {
        let absolute = p[0] == '/';
        let out = dot_fold(Seq::empty(), split_slash(p), absolute);
        let out2: Seq<Seq<char>> = if absolute && out.len() == 1 {
            out.push(Seq::empty())
        } else {
            out
        };
        join_slash(out2)
    }
}

/// Resolves a reference base against a context base: a base with a scheme
/// replaces the context entirely; a `//`-base keeps only the context's
/// scheme; a `/`-rooted base keeps scheme and authority; any other base is
/// read relative to the context path's directory. Dot segments are removed
/// from the merged path.
pub open spec fn resolve_base(a: Seq<char>, b: Seq<char>) -> Seq<char> {
    if scheme_end(b) is Some {
        b
    } else if b.len() >= 2 && b[0] == '/' && b[1] == '/' {
        let sl: int = match scheme_end(a) {
            Some(i) => i + 1,
            None => 0,
        };
        a.take(sl) + b
    } else if b.len() >= 1 && b[0] == '/' {
        a.take(prefix_end(a)) + remove_dots(b)
    } else {
        let pe = prefix_end(a);
        a.take(pe) + remove_dots(dir_of(a.skip(pe)) + b)
    }
}

/// Resolution of `b` against `a`: an empty reference keeps `a` whole, a
/// fragment-only reference keeps `a`'s base, and any other reference
/// resolves its base against `a`'s and keeps its own pointer.
pub open spec fn join_view(a: LocationView, b: LocationView) -> LocationView {
    if b.base.len() == 0 && b.root {
        a
    } else if b.base.len() == 0 {
        LocationView { base: a.base, pointer: b.pointer, root: false }
    } else {
        LocationView { base: resolve_base(a.base, b.base), pointer: b.pointer, root: b.root }
    }
}

/// Joining the empty reference changes nothing.
pub proof fn lemma_join_identity(a: LocationView)
    ensures
        join_view(a, LocationView { base: Seq::empty(), pointer: Seq::empty(), root: true }) == a,
        parse_loc(Seq::empty()) == Ok::<LocationView, ParseLocationError>(
            LocationView { base: Seq::empty(), pointer: Seq::empty(), root: true },
        ),
{
}

/// Joining a fragment-only reference keeps the base of the left location.
pub proof fn lemma_join_fragment_only(a: LocationView, b: LocationView)
    requires
        b.base.len() == 0,
        !b.root,
    ensures
        join_view(a, b).base == a.base,
        join_view(a, b).pointer == b.pointer,
{
}

/// Element-wise copy of a vector of strings.
pub fn clone_string_vec(v: &Vec<String>) -> (r: Vec<String>)
    ensures
        r.deep_view() == v.deep_view(),
{
    let mut r: Vec<String> = Vec::new();
    let n = v.len();
    let mut i: usize = 0;
    while i < n
        invariant
            i <= n,
            n == v.len(),
            r.deep_view() =~~= v.deep_view().take(i as int),
        decreases n - i,
    {
        let ghost pre = r.deep_view();
        let s = v[i].clone();
        proof {
            assert(s@ == v.deep_view()[i as int]);
        }
        r.push(s);
        proof {
            assert(r.deep_view() =~~= pre.push(v.deep_view()[i as int]));
            assert(v.deep_view().take(i + 1) =~~= v.deep_view().take(i as int).push(
                v.deep_view()[i as int],
            ));
        }
        i += 1;
    }
    proof {
        assert(v.deep_view().take(n as int) =~~= v.deep_view());
    }
    r
}

impl Clone for NodeLocation {
    /// Copies the location; the copy has the same mathematical value.
    fn clone(&self) -> (r: Self)
        ensures
            r@ == self@,
    {
        let r = NodeLocation {
            base: self.base.clone(),
            pointer: clone_string_vec(&self.pointer),
            root: self.root,
        };
        proof {
            assert(r@ =~~= self@);
        }
        r
    }
}

/// Index of the last occurrence of `c` in `s`, as an executable search.
fn rfind_char(s: &str, c: char) -> (r: Option<usize>)
    ensures
        match r {
            Some(j) => j < s@.len() && last_at(s@, c) == Some(j as int),
            None => last_at(s@, c) is None,
        },
{
    let n = s.unicode_len();
    let mut i: usize = n;
    while i > 0
        invariant
            i <= n,
            n == s@.len(),
            forall|k: int| i <= k < n ==> s@[k] != c,
        decreases i,
    {
        i -= 1;
        if s.get_char(i) == c {
            proof {
                lemma_last_at_is(s@, c, i as int);
            }
            return Some(i);
        }
    }
    proof {
        lemma_last_at_none(s@, c);
    }
    None
}

/// Index of the `:` that ends a scheme, when the text starts with one.
fn scheme_end_ex(s: &str) -> (r: Option<usize>)
    ensures
        match r {
            Some(i) => i < s@.len() && scheme_end(s@) == Some(i as int),
            None => scheme_end(s@) is None,
        },
{
    let ci = find_char(s, 0, ':');
    match ci {
        None => {
            proof {
                lemma_first_at_none(s@, ':');
            }
            None
        },
        Some(i) => {
            proof {
                lemma_first_at_is(s@, ':', i as int);
            }
            if i == 0 {
                return None;
            }
            let si = find_char(s, 0, '/');
            match si {
                None => {
                    proof {
                        lemma_first_at_none(s@, '/');
                    }
                    Some(i)
                },
                Some(j) => {
                    proof {
                        lemma_first_at_is(s@, '/', j as int);
                    }
                    if i < j {
                        Some(i)
                    } else {
                        None
                    }
                },
            }
        },
    }
}

/// Where the scheme-and-authority prefix of a base ends.
fn prefix_end_ex(s: &str) -> (r: usize)
    ensures
        r as int == prefix_end(s@),
        r <= s@.len(),
{
    let n = s.unicode_len();
    let sl = match scheme_end_ex(s) {
        Some(i) => i + 1,
        None => 0,
    };
    if n >= 2 && sl <= n - 2 && s.get_char(sl) == '/' && s.get_char(sl + 1) == '/' {
        match find_char(s, sl + 2, '/') {
            Some(k) => {
                proof {
                    let rem = s@.skip(sl + 2);
                    assert(rem[k - sl - 2] == s@[k as int]);
                    assert(forall|t: int|
                        0 <= t < k - sl - 2 ==> rem[t] == s@[t + sl + 2] && s@[t + sl + 2] != '/');
                    lemma_first_at_is(rem, '/', k - sl - 2);
                }
                k
            },
            None => {
                proof {
                    let rem = s@.skip(sl + 2);
                    assert(forall|t: int|
                        0 <= t < rem.len() ==> rem[t] == s@[t + sl + 2] && s@[t + sl + 2] != '/');
                    lemma_first_at_none(rem, '/');
                }
                n
            },
        }
    } else {
        sl
    }
}

/// Splits a string at every `/` into its raw segments.
fn split_on_slash(s: &str) -> (r: Vec<String>)
    ensures
        r.deep_view() == split_slash(s@),
{
    let n = s.unicode_len();
    let mut out: Vec<String> = Vec::new();
    let mut cur: usize = 0;
    proof {
        assert(s@.skip(0) =~= s@);
        assert(out.deep_view() + split_slash(s@.skip(0)) =~= split_slash(s@));
    }
    loop
        invariant_except_break
            cur <= n,
            n == s@.len(),
            split_slash(s@) == out.deep_view() + split_slash(s@.skip(cur as int)),
        ensures
            split_slash(s@) == out.deep_view(),
        decreases n - cur,
    {
        let ghost rem = s@.skip(cur as int);
        match find_char(s, cur, '/') {
            Some(j) => {
                proof {
                    assert(rem[j - cur] == s@[j as int]);
                    assert(forall|k: int|
                        0 <= k < j - cur ==> rem[k] == s@[k + cur] && s@[k + cur] != '/');
                    lemma_first_at_is(rem, '/', j - cur);
                    assert(rem.take(j - cur) =~= s@.subrange(cur as int, j as int));
                    assert(rem.skip(j - cur + 1) =~= s@.skip(j + 1));
                }
                let raw = input_substring(s, cur, j);
                let ghost pre = out.deep_view();
                out.push(raw);
                proof {
                    assert(out.deep_view() =~~= pre.push(s@.subrange(cur as int, j as int)));
                    assert(split_slash(rem) == seq![rem.take(j - cur)] + split_slash(
                        s@.skip(j + 1),
                    ));
                    assert(pre + (seq![rem.take(j - cur)] + split_slash(s@.skip(j + 1)))
                        =~= out.deep_view() + split_slash(s@.skip(j + 1)));
                }
                cur = j + 1;
            },
            None => {
                proof {
                    assert(forall|k: int|
                        0 <= k < rem.len() ==> rem[k] == s@[k + cur] && s@[k + cur] != '/');
                    lemma_first_at_none(rem, '/');
                    assert(split_slash(rem) =~= seq![rem]);
                    assert(rem =~= s@.subrange(cur as int, n as int));
                }
                let raw = input_substring(s, cur, n);
                let ghost pre = out.deep_view();
                out.push(raw);
                proof {
                    assert(out.deep_view() =~~= pre.push(rem));
                    assert(pre + seq![rem] =~= out.deep_view());
                }
                break;
            },
        }
    }
    out
}

/// An owned copy of `s[from..to]` in characters.
fn input_substring(s: &str, from: usize, to: usize) -> (r: String)
    requires
        from <= to <= s@.len(),
    ensures
        r@ == s@.subrange(from as int, to as int),
{
    s.substring_char(from, to).to_owned()
}

/// Removes `.` and `..` segments, left to right.
fn dot_fold_ex(raw: Vec<String>, absolute: bool) -> (r: Vec<String>)
    ensures
        r.deep_view() == dot_fold(Seq::empty(), raw.deep_view(), absolute),
{
    let n = raw.len();
    let mut out: Vec<String> = Vec::new();
    let mut i: usize = 0;
    proof {
        assert(out.deep_view() =~~= Seq::<Seq<char>>::empty());
        assert(raw.deep_view().skip(0) =~= raw.deep_view());
    }
    while i < n
        invariant
            i <= n,
            n == raw.len(),
            dot_fold(Seq::empty(), raw.deep_view(), absolute) == dot_fold(
                out.deep_view(),
                raw.deep_view().skip(i as int),
                absolute,
            ),
        decreases n - i,
    {
        let ghost rest = raw.deep_view().skip(i as int);
        let ghost seg = raw.deep_view()[i as int];
        proof {
            assert(rest[0] == seg);
            assert(rest.drop_first() =~= raw.deep_view().skip(i + 1));
            reveal_strlit(".");
            reveal_strlit("..");
            assert("."@ =~= seq!['.']);
            assert(".."@ =~= seq!['.', '.']);
        }
        let ghost pre = out.deep_view();
        if str_eq(raw[i].as_str(), ".") {
            proof {
                assert(seg == seq!['.']);
            }
        } else if str_eq(raw[i].as_str(), "..") {
            proof {
                assert(seg == seq!['.', '.']);
                assert(seg != seq!['.']);
            }
            let limit: usize = if absolute {
                1
            } else {
                0
            };
            if out.len() > limit && !str_eq(out[out.len() - 1].as_str(), "..") {
                proof {
                    assert(pre.last() == out.deep_view()[out.len() - 1]);
                    assert(pre.last() != seq!['.', '.']);
                }
                out.pop();
                proof {
                    assert(out.deep_view() =~~= pre.drop_last());
                }
            } else if absolute {
            } else {
                proof {
                    if out.len() > limit {
                        assert(pre.last() == seq!['.', '.']);
                    }
                }
                out.push(raw[i].clone());
                proof {
                    assert(out.deep_view() =~~= pre.push(seg));
                }
            }
        } else {
            proof {
                assert(seg != seq!['.']);
                assert(seg != seq!['.', '.']);
            }
            out.push(raw[i].clone());
            proof {
                assert(out.deep_view() =~~= pre.push(seg));
            }
        }
        i += 1;
    }
    proof {
        assert(raw.deep_view().skip(n as int) =~= Seq::<Seq<char>>::empty());
    }
    out
}

pub proof fn lemma_join_slash_snoc(s: Seq<Seq<char>>, k: int)
    requires
        1 <= k < s.len(),
    ensures
        join_slash(s.take(k + 1)) == join_slash(s.take(k)) + seq!['/'] + s[k],
    decreases k,
{
    if k == 1 {
        reveal_with_fuel(join_slash, 3);
        assert(s.take(2).drop_first() =~= seq![s[1]]);
        assert(s.take(2)[0] == s[0]);
        assert(join_slash(s.take(2)) == s[0] + seq!['/'] + s[1]);
        assert(s.take(1) =~= seq![s[0]]);
        assert(join_slash(s.take(1)) == s[0]);
    } else {
        lemma_join_slash_snoc(s.drop_first(), k - 1);
        assert(s.take(k + 1).drop_first() =~= s.drop_first().take(k));
        assert(s.take(k).drop_first() =~= s.drop_first().take(k - 1));
        assert(s.drop_first()[k - 1] == s[k]);
        assert(join_slash(s.take(k + 1)) == s[0] + seq!['/'] + join_slash(s.drop_first().take(k)));
        assert(join_slash(s.take(k)) == s[0] + seq!['/'] + join_slash(
            s.drop_first().take(k - 1),
        ));
        assert(s[0] + seq!['/'] + (join_slash(s.drop_first().take(k - 1)) + seq!['/'] + s[k]) =~= (s[0]
            + seq!['/'] + join_slash(s.drop_first().take(k - 1))) + seq!['/'] + s[k]);
    }
}

/// Reassembles segments with `/` between them.
fn join_segments(segs: &Vec<String>) -> (r: String)
    ensures
        r@ == join_slash(segs.deep_view()),
{
    let n = segs.len();
    if n == 0 {
        return String::new();
    }
    let mut out = segs[0].clone();
    proof {
        assert(segs.deep_view().take(1) =~= seq![segs.deep_view()[0]]);
        assert(out@ == join_slash(segs.deep_view().take(1)));
    }
    let mut k: usize = 1;
    while k < n
        invariant
            1 <= k <= n,
            n == segs.len(),
            out@ == join_slash(segs.deep_view().take(k as int)),
        decreases n - k,
    {
        out.push('/');
        out.append(segs[k].as_str());
        proof {
            lemma_join_slash_snoc(segs.deep_view(), k as int);
            assert(out@ =~= join_slash(segs.deep_view().take(k + 1)));
        }
        k += 1;
    }
    proof {
        assert(segs.deep_view().take(n as int) =~= segs.deep_view());
    }
    out
}

/// Removes dot segments from a path string.
fn remove_dots_ex(p: &str) -> (r: String)
    ensures
        r@ == remove_dots(p@),
{
    let n = p.unicode_len();
    if n == 0 {
        return p.to_owned();
    }
    let absolute = p.get_char(0) == '/';
    let raw = split_on_slash(p);
    let mut out = dot_fold_ex(raw, absolute);
    if absolute && out.len() == 1 {
        let ghost pre = out.deep_view();
        out.push(String::new());
        proof {
            assert(out.deep_view() =~~= pre.push(Seq::empty()));
        }
    }
    join_segments(&out)
}

/// Resolves a reference base against a context base.
fn resolve_base_ex(a: &str, b: &str) -> (r: String)
    ensures
        r@ == resolve_base(a@, b@),
{
    match scheme_end_ex(b) {
        Some(_) => b.to_owned(),
        None => {
            let bn = b.unicode_len();
            let an = a.unicode_len();
            if bn >= 2 && b.get_char(0) == '/' && b.get_char(1) == '/' {
                let sl = match scheme_end_ex(a) {
                    Some(i) => {
                        proof {
                            assert(i < an);
                        }
                        i + 1
                    },
                    None => 0,
                };
                let mut r = input_substring(a, 0, sl);
                r.append(b);
                proof {
                    assert(a@.subrange(0, sl as int) =~= a@.take(sl as int));
                }
                r
            } else if bn >= 1 && b.get_char(0) == '/' {
                let pe = prefix_end_ex(a);
                let mut r = input_substring(a, 0, pe);
                let rd = remove_dots_ex(b);
                r.append(rd.as_str());
                proof {
                    assert(a@.subrange(0, pe as int) =~= a@.take(pe as int));
                }
                r
            } else {
                let pe = prefix_end_ex(a);
                let path = a.substring_char(pe, an);
                proof {
                    assert(path@ =~= a@.skip(pe as int));
                }
                let mut merged = match rfind_char(path, '/') {
                    Some(i) => input_substring(path, 0, i + 1),
                    None => String::new(),
                };
                proof {
                    assert(merged@ =~= dir_of(a@.skip(pe as int)));
                }
                merged.append(b);
                proof {
                    assert(merged@ =~= dir_of(a@.skip(pe as int)) + b@);
                }
                let rd = remove_dots_ex(merged.as_str());
                let mut r = input_substring(a, 0, pe);
                r.append(rd.as_str());
                proof {
                    assert(a@.subrange(0, pe as int) =~= a@.take(pe as int));
                }
                r
            }
        },
    }
}

impl NodeLocation {
    /// Resolves `other` against this location: an absolute reference
    /// replaces it, a fragment-only reference keeps this base, a relative
    /// reference is read from this base's directory.
    pub fn join(&self, other: &NodeLocation) -> (r: NodeLocation)
        ensures
            r@ == join_view(self@, other@),
    {
        if other.base.as_str().unicode_len() == 0 {
            if other.root {
                return self.clone();
            }
            let r = NodeLocation {
                base: self.base.clone(),
                pointer: clone_string_vec(&other.pointer),
                root: false,
            };
            proof {
                assert(r@ =~~= join_view(self@, other@));
            }
            return r;
        }
        let base = resolve_base_ex(self.base.as_str(), other.base.as_str());
        let r = NodeLocation { base, pointer: clone_string_vec(&other.pointer), root: other.root };
        proof {
            assert(r@ =~~= join_view(self@, other@));
        }
        r
    }
}

/// Character-wise equality of two string slices.
pub fn str_eq(a: &str, b: &str) -> (r: bool)
    ensures
        r == (a@ == b@),
{
    let an = a.unicode_len();
    let bn = b.unicode_len();
    if an != bn {
        return false;
    }
    let mut i: usize = 0;
    while i < an
        invariant
            an == a@.len(),
            an == b@.len(),
            i <= an,
            forall|j: int| 0 <= j < i ==> a@[j] == b@[j],
        decreases an - i,
    {
        if a.get_char(i) != b.get_char(i) {
            return false;
        }
        i += 1;
    }
    proof {
        assert(a@ =~= b@);
    }
    true
}

} // verus!
