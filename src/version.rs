//! The version type: a non-empty sequence of segments.
use core::cmp::Ordering;
use vstd::prelude::*;

use crate::text::{
    all_digits, chars_of, is_digit, is_u8_text, join_with, lemma_decimal_u8, lemma_join_push,
    lemma_split_at_first, lemma_split_join, lemma_split_whole, occurs_at, occurs_at_exec,
    parse_u8, split_by, u8_text_value, unsigned_body,
};
use crate::versionpart::{PartView, VersionPart, parts_equal, part_order, part_text};

verus! {

/// The number of leading segments that two versions both have.
pub open spec fn shared_depth(a: Seq<PartView>, b: Seq<PartView>) -> int {
    if a.len() <= b.len() {
        a.len() as int
    } else {
        b.len() as int
    }
}

/// The first index at or after `i`, below the shared depth, where the two
/// versions do not hold the same number; the shared depth if there is none.
pub open spec fn divergence_from(a: Seq<PartView>, b: Seq<PartView>, i: int) -> int
    decreases shared_depth(a, b) - i,
{
    if 0 <= i < shared_depth(a, b) && parts_equal(a[i], b[i]) {
        divergence_from(a, b, i + 1)
    } else {
        i
    }
}

pub open spec fn divergence(a: Seq<PartView>, b: Seq<PartView>) -> int {
    divergence_from(a, b, 0)
}

/// Two versions are equal when they hold the same numbers up to the shared
/// depth, or up to the first wildcard that either of them holds.
pub open spec fn versions_equal(a: Seq<PartView>, b: Seq<PartView>) -> bool {
    let k = divergence(a, b);
    k >= shared_depth(a, b) || a[k] is Wildcard || b[k] is Wildcard
}

/// The sort order of versions: that of the segments at the first index where
/// they do not hold the same number; level if there is no such index.
pub open spec fn version_order(a: Seq<PartView>, b: Seq<PartView>) -> Ordering {
    let k = divergence(a, b);
    if k >= shared_depth(a, b) {
        Ordering::Equal
    } else {
        part_order(a[k], b[k])
    }
}

pub open spec fn has_wildcard(v: Seq<PartView>) -> bool {
    exists|i: int| 0 <= i < v.len() && #[trigger] v[i] is Wildcard
}

pub open spec fn all_numbers(v: Seq<PartView>) -> bool {
    forall|i: int| 0 <= i < v.len() ==> #[trigger] v[i] is Number
}

pub open spec fn all_wildcards(v: Seq<PartView>) -> bool {
    forall|i: int| 0 <= i < v.len() ==> #[trigger] v[i] is Wildcard
}

/// Whether the concrete version `v` satisfies `pattern`: `v` holds no
/// wildcard, and `pattern` is all wildcards or equal to `v`.
pub open spec fn compatible(v: Seq<PartView>, pattern: Seq<PartView>) -> bool {
    !has_wildcard(v) && (all_wildcards(pattern) || versions_equal(v, pattern))
}

pub open spec fn dot() -> Seq<char> {
    seq!['.']
}

pub open spec fn underscore() -> Seq<char> {
    seq!['_']
}

pub open spec fn star() -> Seq<char> {
    seq!['*']
}

/// A version has at least one segment; a wildcard comes only last and is
/// written `*`.
pub open spec fn well_formed(v: Seq<PartView>) -> bool {
    v.len() >= 1 && star_only_last(v)
}

/// The version whose segments are the numbers `ns`, in order.
pub open spec fn numbers(ns: Seq<u8>) -> Seq<PartView> {
    ns.map_values(|n: u8| PartView::Number(n))
}

/// The segments that pieces of text stand for: a number for each piece that
/// names a `u8`, until a piece `*`, which ends the version as a wildcard; no
/// version if some piece before that is neither.
pub open spec fn parse_pieces(pieces: Seq<Seq<char>>) -> Option<Seq<PartView>>
    decreases pieces.len(),
{
    if pieces.len() == 0 {
        Some(Seq::empty())
    } else if is_u8_text(pieces[0]) {
        match parse_pieces(pieces.drop_first()) {
            Some(rest) => Some(seq![PartView::Number(u8_text_value(pieces[0]))] + rest),
            None => None,
        }
    } else if pieces[0] == star() {
        Some(seq![PartView::Wildcard(star())])
    } else {
        None
    }
}

/// The version that `s` writes with delimiter `d`; none for an empty delimiter.
pub open spec fn parse_version(s: Seq<char>, d: Seq<char>) -> Option<Seq<PartView>> {
    if d.len() == 0 {
        None
    } else {
        parse_pieces(split_by(s, d))
    }
}

/// `o` with `pre` put in front of it.
pub open spec fn prefixed(pre: Seq<PartView>, o: Option<Seq<PartView>>) -> Option<Seq<PartView>> {
    match o {
        Some(r) => Some(pre + r),
        None => None,
    }
}

pub open spec fn part_texts(v: Seq<PartView>) -> Seq<Seq<char>> {
    v.map_values(|p: PartView| part_text(p))
}

/// The text of a version: the texts of its segments with `d` between them.
pub open spec fn rendered(v: Seq<PartView>, d: Seq<char>) -> Seq<char> {
    join_with(part_texts(v), d)
}

/// Segments whose wildcards, if any, come last and are written `*`.
pub open spec fn star_only_last(v: Seq<PartView>) -> bool {
    forall|i: int|
        0 <= i < v.len() && #[trigger] v[i] is Wildcard ==> i == v.len() - 1 && v[i]
            == PartView::Wildcard(star())
}

proof fn lemma_parse_texts(v: Seq<PartView>)
    requires
        star_only_last(v),
    ensures
        parse_pieces(part_texts(v)) == Some(v),
    decreases v.len(),
{
    let ts = part_texts(v);
    if v.len() == 0 {
        assert(v =~= Seq::<PartView>::empty());
    } else {
        let rest = v.drop_first();
        assert(ts.drop_first() =~= part_texts(rest));
        assert(star_only_last(rest)) by {
            assert forall|i: int| 0 <= i < rest.len() && #[trigger] rest[i] is Wildcard implies i
                == rest.len() - 1 && rest[i] == PartView::Wildcard(star()) by {
                assert(rest[i] == v[i + 1]);
            }
        }
        lemma_parse_texts(rest);
        match v[0] {
            PartView::Number(n) => {
                lemma_decimal_u8(n);
                assert(seq![v[0]] + rest =~= v);
            },
            PartView::Wildcard(t) => {
                assert(v.len() == 1);
                assert(ts[0] == star());
                assert(!is_digit(star()[0]));
                assert(unsigned_body(star()) == star());
                assert(!all_digits(star()));
                assert(seq![PartView::Wildcard(star())] =~= v);
            },
        }
    }
}

/// Reading back the text of a well-formed version, written with a
/// one-character delimiter that is neither a digit nor `*`, gives the
/// version itself.
pub proof fn lemma_render_parse(v: Seq<PartView>, c: char)
    requires
        well_formed(v),
        !is_digit(c),
        c != '*',
    ensures
        parse_version(rendered(v, seq![c]), seq![c]) == Some(v),
{
    let ts = part_texts(v);
    assert forall|i: int, j: int| 0 <= i < ts.len() && 0 <= j < ts[i].len() implies #[trigger] ts[i][j]
        != c by {
        match v[i] {
            PartView::Number(n) => {
                lemma_decimal_u8(n);
            },
            PartView::Wildcard(t) => {},
        }
    }
    lemma_split_join(ts, c);
    lemma_parse_texts(v);
}

/// A version made from numbers, written with `.` and read back with `.`,
/// is the same version.
pub proof fn lemma_numbers_round_trip(ns: Seq<u8>)
    requires
        ns.len() > 0,
    ensures
        parse_version(rendered(numbers(ns), dot()), dot()) == Some(numbers(ns)),
{
    lemma_render_parse(numbers(ns), '.');
}

/// A version written in its serializing form, with `_`, and read back with
/// `_`, is the same version.
pub proof fn lemma_serializer_round_trip(v: Seq<PartView>)
    requires
        well_formed(v),
    ensures
        parse_version(rendered(v, underscore()), underscore()) == Some(v),
{
    lemma_render_parse(v, '_');
}

/// The segment that the piece `s[from..to]` stands for, if it is a number or `*`.
fn piece_part(s: &Vec<char>, from: usize, to: usize) -> (r: Option<VersionPart>)
    requires
        from <= to <= s@.len(),
    ensures
        ({
            let p = s@.subrange(from as int, to as int);
            match r {
                Some(part) => if is_u8_text(p) {
                    part@ == PartView::Number(u8_text_value(p))
                } else {
                    p == star() && part@ == PartView::Wildcard(star())
                },
                None => !is_u8_text(p) && p != star(),
            }
        }),
{
    match parse_u8(s, from, to) {
        Some(n) => Some(VersionPart::Number(n)),
        None => {
            if to - from == 1 && s[from] == '*' {
                let text = String::from_str("*");
                proof {
                    reveal_strlit("*");
                    assert(text@ =~= star());
                    assert(s@.subrange(from as int, to as int) =~= star());
                }
                Some(VersionPart::Wildcard(text))
            } else {
                proof {
                    if s@.subrange(from as int, to as int) == star() {
                        assert(s@.subrange(from as int, to as int)[0] == s@[from as int]);
                    }
                }
                None
            }
        },
    }
}

/// The candidate that a left-to-right scan keeps: the first one present,
/// replaced by each later one that orders strictly above the one kept.
/// Absent entries are skipped; none is kept if none is present.
pub open spec fn latest_index(c: Seq<Option<Seq<PartView>>>) -> Option<int>
    decreases c.len(),
{
    if c.len() == 0 {
        None
    } else {
        let i = c.len() - 1;
        let prev = latest_index(c.drop_last());
        match c[i] {
            None => prev,
            Some(v) => match prev {
                None => Some(i),
                Some(m) => if version_order(v, c[m]->0) == Ordering::Greater {
                    Some(i)
                } else {
                    Some(m)
                },
            },
        }
    }
}

pub open spec fn views_of(list: Seq<Version>) -> Seq<Seq<PartView>> {
    list.map_values(|v: Version| v@)
}

pub open spec fn texts_of(list: Seq<String>) -> Seq<Seq<char>> {
    list.map_values(|s: String| s@)
}

/// The versions of `vs` that satisfy `pattern`, in place.
pub open spec fn compatible_candidates(vs: Seq<Seq<PartView>>, pattern: Seq<PartView>) -> Seq<
    Option<Seq<PartView>>,
> {
    vs.map_values(
        |v: Seq<PartView>|
            if compatible(v, pattern) {
                Some(v)
            } else {
                None
            },
    )
}

/// The texts of `ss` that read as versions satisfying `pattern`, read, in place.
pub open spec fn parsed_compatible(ss: Seq<Seq<char>>, pattern: Seq<PartView>) -> Seq<
    Option<Seq<PartView>>,
> {
    ss.map_values(
        |s: Seq<char>|
            match parse_version(s, dot()) {
                Some(v) => if compatible(v, pattern) {
                    Some(v)
                } else {
                    None
                },
                None => None,
            },
    )
}

/// The texts of `ss` that read as versions without wildcards, read, in place.
pub open spec fn parsed_concrete(ss: Seq<Seq<char>>) -> Seq<Option<Seq<PartView>>> {
    ss.map_values(
        |s: Seq<char>|
            match parse_version(s, dot()) {
                Some(v) => if has_wildcard(v) {
                    None
                } else {
                    Some(v)
                },
                None => None,
            },
    )
}

pub proof fn lemma_latest_index_bounds(c: Seq<Option<Seq<PartView>>>)
    ensures
        latest_index(c) matches Some(m) ==> 0 <= m < c.len() && c[m] is Some,
    decreases c.len(),
{
    if c.len() > 0 {
        lemma_latest_index_bounds(c.drop_last());
    }
}

proof fn lemma_latest_index_some(c: Seq<Option<Seq<PartView>>>, j: int)
    requires
        0 <= j < c.len(),
        c[j] is Some,
    ensures
        latest_index(c) is Some,
    decreases c.len(),
{
    if j < c.len() - 1 {
        assert(c.drop_last()[j] == c[j]);
        lemma_latest_index_some(c.drop_last(), j);
    }
}

/// One more step of the scan over the first `i + 1` candidates.
proof fn lemma_latest_step(c: Seq<Option<Seq<PartView>>>, i: int)
    requires
        0 <= i < c.len(),
    ensures
        latest_index(c.subrange(0, i + 1)) == match c[i] {
            None => latest_index(c.subrange(0, i)),
            Some(v) => match latest_index(c.subrange(0, i)) {
                None => Some(i),
                Some(m) => if version_order(v, c[m]->0) == Ordering::Greater {
                    Some(i)
                } else {
                    Some(m)
                },
            },
        },
        latest_index(c.subrange(0, i)) matches Some(m) ==> 0 <= m < i && c[m] is Some,
{
    let t = c.subrange(0, i + 1);
    assert(t.drop_last() =~= c.subrange(0, i));
    lemma_latest_index_bounds(c.subrange(0, i));
    if let Some(m) = latest_index(c.subrange(0, i)) {
        assert(t[m] == c[m]);
        assert(c.subrange(0, i)[m] == c[m]);
    }
}

proof fn lemma_divergence_from(a: Seq<PartView>, b: Seq<PartView>, i: int)
    requires
        0 <= i <= shared_depth(a, b),
    ensures
        i <= divergence_from(a, b, i) <= shared_depth(a, b),
        forall|j: int| i <= j < divergence_from(a, b, i) ==> parts_equal(a[j], b[j]),
        divergence_from(a, b, i) < shared_depth(a, b) ==> !parts_equal(
            a[divergence_from(a, b, i)],
            b[divergence_from(a, b, i)],
        ),
    decreases shared_depth(a, b) - i,
{
    if i < shared_depth(a, b) && parts_equal(a[i], b[i]) {
        lemma_divergence_from(a, b, i + 1);
    }
}

/// The divergence is the first index, below the shared depth, where the two
/// versions do not hold the same number.
proof fn lemma_divergence_is(a: Seq<PartView>, b: Seq<PartView>, k: int)
    requires
        0 <= k <= shared_depth(a, b),
        forall|j: int| 0 <= j < k ==> parts_equal(a[j], b[j]),
        k < shared_depth(a, b) ==> !parts_equal(a[k], b[k]),
    ensures
        divergence(a, b) == k,
{
    lemma_divergence_from(a, b, 0);
    let d = divergence(a, b);
    if d < k {
        assert(parts_equal(a[d], b[d]));
    }
    if d > k {
        assert(parts_equal(a[k], b[k]));
    }
}

/// A version without wildcards orders level with itself.
pub proof fn lemma_order_reflexive(a: Seq<PartView>)
    requires
        !has_wildcard(a),
    ensures
        version_order(a, a) == Ordering::Equal,
{
    assert forall|j: int| 0 <= j < a.len() implies parts_equal(a[j], a[j]) by {
        if !(a[j] is Number) {
            assert(a[j] is Wildcard);
        }
    }
    lemma_divergence_is(a, a, a.len() as int);
}

/// Among versions without wildcards: what orders at most level with `s`
/// orders at most level with anything that orders above `s`.
pub proof fn lemma_order_not_above(e: Seq<PartView>, s: Seq<PartView>, t: Seq<PartView>)
    requires
        !has_wildcard(e),
        !has_wildcard(s),
        !has_wildcard(t),
        version_order(e, s) != Ordering::Greater,
        version_order(t, s) == Ordering::Greater,
    ensures
        version_order(e, t) != Ordering::Greater,
{
    lemma_divergence_from(t, s, 0);
    lemma_divergence_from(e, s, 0);
    let k1 = divergence(t, s);
    let k2 = divergence(e, s);
    assert(!(t[k1] is Wildcard) && !(s[k1] is Wildcard));
    if k2 < shared_depth(e, s) {
        assert(!(e[k2] is Wildcard) && !(s[k2] is Wildcard));
    }
    let k = if k2 < shared_depth(e, s) && k2 < k1 {
        k2
    } else if k1 < e.len() {
        k1
    } else {
        e.len() as int
    };
    assert forall|j: int| 0 <= j < k implies parts_equal(e[j], t[j]) by {
        assert(parts_equal(e[j], s[j]));
        assert(parts_equal(t[j], s[j]));
    }
    if k < shared_depth(e, t) {
        assert(!(e[k] is Wildcard) && !(t[k] is Wildcard));
    }
    lemma_divergence_is(e, t, k);
}

/// The candidate that the scan keeps orders at least level with every
/// candidate, when no candidate holds a wildcard.
pub proof fn lemma_latest_is_greatest(c: Seq<Option<Seq<PartView>>>)
    requires
        forall|j: int| 0 <= j < c.len() && #[trigger] c[j] is Some ==> !has_wildcard(c[j]->0),
    ensures
        latest_index(c) matches Some(m) ==> forall|j: int|
            0 <= j < c.len() && #[trigger] c[j] is Some ==> version_order(c[j]->0, c[m]->0)
                != Ordering::Greater,
    decreases c.len(),
{
    if c.len() > 0 {
        let p = c.drop_last();
        let i = c.len() - 1;
        assert forall|j: int| 0 <= j < p.len() && #[trigger] p[j] is Some implies !has_wildcard(
            p[j]->0,
        ) by {
            assert(p[j] == c[j]);
        }
        lemma_latest_is_greatest(p);
        lemma_latest_index_bounds(p);
        if let Some(m) = latest_index(c) {
            assert forall|j: int| 0 <= j < c.len() && #[trigger] c[j] is Some implies version_order(
                c[j]->0,
                c[m]->0,
            ) != Ordering::Greater by {
                if j == m {
                    lemma_order_reflexive(c[j]->0);
                } else if j < i {
                    assert(p[j] == c[j]);
                    lemma_latest_index_some(p, j);
                    let pm = latest_index(p)->0;
                    assert(p[pm] == c[pm]);
                    if m == i {
                        lemma_order_not_above(c[j]->0, c[pm]->0, c[i]->0);
                    }
                } else {
                    let pm = latest_index(p)->0;
                    assert(p[pm] == c[pm]);
                    assert(version_order(c[i]->0, c[pm]->0) != Ordering::Greater);
                }
            }
        }
    }
}

/// A dotted numeric version such as `1.2.3`, `1.*` or `*`.
#[derive(Debug, Hash)]
pub struct Version {
    parts: Vec<VersionPart>,
}

impl View for Version {
    type V = Seq<PartView>;

    closed spec fn view(&self) -> Seq<PartView> {
        self.parts@.map_values(|p: VersionPart| p@)
    }
}

impl Version {
    #[verifier::type_invariant]
    spec fn inv(self) -> bool {
        well_formed(self@)
    }

    fn get_shared_depth(v1: &Version, v2: &Version) -> (r: usize)
        ensures
            r == shared_depth(v1@, v2@),
    {
        if v1.parts.len() <= v2.parts.len() {
            v1.parts.len()
        } else {
            v2.parts.len()
        }
    }

    /// The version whose segments are `numbers`, in order.
    pub fn new(numbers: &[u8]) -> (r: Version)
        requires
            numbers@.len() > 0,
        ensures
            r@ == crate::version::numbers(numbers@),
            well_formed(r@),
    {
        let mut parts: Vec<VersionPart> = Vec::new();
        let mut i: usize = 0;
        while i < numbers.len()
            invariant
                i <= numbers@.len(),
                parts@.len() == i,
                forall|j: int| 0 <= j < i ==> #[trigger] parts@[j]@ == PartView::Number(numbers@[j]),
            decreases numbers@.len() - i,
        {
            parts.push(VersionPart::Number(numbers[i]));
            i = i + 1;
        }
        assert(parts@.map_values(|p: VersionPart| p@) =~= crate::version::numbers(numbers@));
        Version { parts }
    }

    /// The version `*`, which every concrete version satisfies.
    pub fn new_wildcard() -> (r: Version)
        ensures
            r@ == seq![PartView::Wildcard(star())],
            well_formed(r@),
    {
        let text = String::from_str("*");
        proof {
            reveal_strlit("*");
            assert(text@ =~= star());
        }
        let mut parts: Vec<VersionPart> = Vec::new();
        parts.push(VersionPart::Wildcard(text));
        assert(parts@.map_values(|p: VersionPart| p@) =~= seq![PartView::Wildcard(star())]);
        Version { parts }
    }

    /// Reads a version from `version`, whose segments are separated by
    /// `version_string_splitter`. Each segment is a number from 0 to 255 or
    /// `*`; a `*` ends the version and the rest of the text is ignored.
    pub fn from_str_with(version: &str, version_string_splitter: &str) -> (r: Option<Version>)
        ensures
            r is Some <==> parse_version(version@, version_string_splitter@) is Some,
            r matches Some(v) ==> parse_version(version@, version_string_splitter@) == Some(v@)
                && well_formed(v@),
    {
        let s = chars_of(version);
        let d = chars_of(version_string_splitter);
        if d.len() == 0 {
            return None;
        }
        let n = s.len();
        let dl = d.len();
        let mut parts: Vec<VersionPart> = Vec::new();
        let mut start: usize = 0;
        let mut i: usize = 0;
        assert(s@.subrange(0, n as int) =~= s@);
        while i < n
            invariant
                n == s@.len(),
                dl == d@.len(),
                dl > 0,
                start <= i <= n,
                s@ == version@,
                d@ == version_string_splitter@,
                parse_version(s@, d@) == prefixed(
                    parts@.map_values(|p: VersionPart| p@),
                    parse_pieces(split_by(s@.subrange(start as int, n as int), d@)),
                ),
                forall|j: int| 0 <= j < parts@.len() ==> #[trigger] parts@[j]@ is Number,
                forall|q: int|
                    0 <= q < i - start ==> !#[trigger] occurs_at(
                        s@.subrange(start as int, n as int),
                        d@,
                        q,
                    ),
            decreases n - i,
        {
            let ghost t = s@.subrange(start as int, n as int);
            if occurs_at_exec(&s, &d, i) {
                let ghost piece = s@.subrange(start as int, i as int);
                let ghost rest = s@.subrange(i + dl, n as int);
                let ghost before = parts@.map_values(|p: VersionPart| p@);
                proof {
                    assert(t.subrange(i - start, i - start + dl) =~= s@.subrange(
                        i as int,
                        i + dl,
                    ));
                    lemma_split_at_first(t, d@, i - start);
                    assert(t.subrange(0, i - start) =~= piece);
                    assert(t.subrange(i - start + dl, t.len() as int) =~= rest);
                    let ps = seq![piece] + split_by(rest, d@);
                    assert(ps[0] == piece);
                    assert(ps.drop_first() =~= split_by(rest, d@));
                }
                match piece_part(&s, start, i) {
                    None => {
                        return None;
                    },
                    Some(part) => {
                        let wild = part.is_wildcard();
                        parts.push(part);
                        proof {
                            let after = parts@.map_values(|p: VersionPart| p@);
                            assert(after =~= before.push(part@));
                            match parse_pieces(split_by(rest, d@)) {
                                Some(r) => {
                                    assert(before + (seq![part@] + r) =~= after + r);
                                },
                                None => {},
                            }
                            if wild {
                                assert(before + seq![part@] =~= after);
                            }
                        }
                        if wild {
                            let v = Version { parts };
                            proof {
                                use_type_invariant(&v);
                            }
                            return Some(v);
                        }
                    },
                }
                i = i + dl;
                start = i;
            } else {
                proof {
                    if i + dl <= n {
                        assert(t.subrange(i - start, i - start + dl) =~= s@.subrange(
                            i as int,
                            i + dl,
                        ));
                    }
                }
                i = i + 1;
            }
        }
        let ghost t = s@.subrange(start as int, n as int);
        let ghost before = parts@.map_values(|p: VersionPart| p@);
        proof {
            lemma_split_whole(t, d@);
            assert(seq![t].drop_first() =~= Seq::<Seq<char>>::empty());
            assert(seq![t][0] == t);
            assert(parse_pieces(Seq::<Seq<char>>::empty()) == Some(Seq::<PartView>::empty()));
        }
        match piece_part(&s, start, n) {
            None => None,
            Some(part) => {
                parts.push(part);
                proof {
                    let after = parts@.map_values(|p: VersionPart| p@);
                    assert(after =~= before.push(part@));
                    assert(before + (seq![part@] + Seq::empty()) =~= after);
                    assert(before + seq![part@] =~= after);
                }
                let v = Version { parts };
                proof {
                    use_type_invariant(&v);
                }
                Some(v)
            },
        }
    }

    /// Reads a version written with `.` between its segments.
    pub fn from_str(version: &str) -> (r: Option<Version>)
        ensures
            r is Some <==> parse_version(version@, dot()) is Some,
            r matches Some(v) ==> parse_version(version@, dot()) == Some(v@) && well_formed(v@),
    {
        proof {
            reveal_strlit(".");
            assert("."@ =~= dot());
        }
        Version::from_str_with(version, ".")
    }

    /// An independent copy of this version.
    pub fn clone(&self) -> (r: Version)
        ensures
            r@ == self@,
            well_formed(r@),
    {
        proof {
            use_type_invariant(self);
        }
        let mut parts: Vec<VersionPart> = Vec::new();
        let mut i: usize = 0;
        while i < self.parts.len()
            invariant
                i <= self.parts@.len(),
                parts@.len() == i,
                forall|j: int| 0 <= j < i ==> #[trigger] parts@[j]@ == self@[j],
            decreases self.parts@.len() - i,
        {
            parts.push(self.parts[i].duplicate());
            i = i + 1;
        }
        assert(parts@.map_values(|p: VersionPart| p@) =~= self@);
        Version { parts }
    }

    /// Whether some segment is a wildcard.
    pub fn has_wildcards(&self) -> (r: bool)
        ensures
            r == has_wildcard(self@),
    {
        let mut i: usize = 0;
        while i < self.parts.len()
            invariant
                i <= self.parts@.len(),
                forall|j: int| 0 <= j < i ==> !(#[trigger] self@[j] is Wildcard),
            decreases self.parts@.len() - i,
        {
            if self.parts[i].is_wildcard() {
                assert(self@[i as int] is Wildcard);
                return true;
            }
            i = i + 1;
        }
        false
    }

    /// Whether every segment is a number.
    pub fn is_number(&self) -> (r: bool)
        ensures
            r == all_numbers(self@),
    {
        let mut i: usize = 0;
        while i < self.parts.len()
            invariant
                i <= self.parts@.len(),
                forall|j: int| 0 <= j < i ==> #[trigger] self@[j] is Number,
            decreases self.parts@.len() - i,
        {
            if !self.parts[i].is_number() {
                assert(!(self@[i as int] is Number));
                return false;
            }
            i = i + 1;
        }
        true
    }

    /// Whether every segment is a wildcard.
    pub fn is_wildcard(&self) -> (r: bool)
        ensures
            r == all_wildcards(self@),
    {
        let mut i: usize = 0;
        while i < self.parts.len()
            invariant
                i <= self.parts@.len(),
                forall|j: int| 0 <= j < i ==> #[trigger] self@[j] is Wildcard,
            decreases self.parts@.len() - i,
        {
            if self.parts[i].is_number() {
                assert(!(self@[i as int] is Wildcard));
                return false;
            }
            i = i + 1;
        }
        true
    }

    /// The greatest of the texts in `list` that read as versions without
    /// wildcards; the first of them where the scan finds no greater one.
    /// Texts that do not read as versions are skipped.
    pub fn from_latest_vec(list: &Vec<String>) -> (r: Option<Version>)
        ensures
            match latest_index(parsed_concrete(texts_of(list@))) {
                None => r is None,
                Some(m) => r matches Some(v) && v@ == parsed_concrete(texts_of(list@))[m]->0,
            },
            r matches Some(v) ==> forall|j: int|
                0 <= j < list@.len() && #[trigger] parsed_concrete(texts_of(list@))[j] is Some
                    ==> version_order(parsed_concrete(texts_of(list@))[j]->0, v@)
                    != Ordering::Greater,
    {
        let ghost c = parsed_concrete(texts_of(list@));
        let mut latest: Option<Version> = None;
        let mut i: usize = 0;
        while i < list.len()
            invariant
                i <= list@.len(),
                c == parsed_concrete(texts_of(list@)),
                match latest_index(c.subrange(0, i as int)) {
                    None => latest is None,
                    Some(m) => latest matches Some(v) && v@ == c[m]->0,
                },
            decreases list@.len() - i,
        {
            proof {
                lemma_latest_step(c, i as int);
            }
            if let Some(ver) = Version::from_str(list[i].as_str()) {
                if !ver.has_wildcards() {
                    let replace = match &latest {
                        None => true,
                        Some(best) => ver > *best,
                    };
                    if replace {
                        latest = Some(ver);
                    }
                }
            }
            i = i + 1;
        }
        assert(c.subrange(0, i as int) =~= c);
        proof {
            assert forall|j: int| 0 <= j < c.len() && #[trigger] c[j] is Some implies !has_wildcard(
                c[j]->0,
            ) by {}
            lemma_latest_is_greatest(c);
        }
        latest
    }

    /// The entry of `list` that reads as the greatest version satisfying
    /// this pattern; the first of them where the scan finds no greater one.
    /// Entries that do not read as versions are skipped.
    pub fn latest_compatible<'a>(&self, list: &'a Vec<String>) -> (r: Option<&'a str>)
        ensures
            match latest_index(parsed_compatible(texts_of(list@), self@)) {
                None => r is None,
                Some(m) => r is Some && r->0@ == list@[m]@,
            },
            r matches Some(t) ==> parse_version(t@, dot()) matches Some(best) && forall|j: int|
                0 <= j < list@.len() && #[trigger] parsed_compatible(texts_of(list@), self@)[j] is Some
                    ==> version_order(parsed_compatible(texts_of(list@), self@)[j]->0, best)
                    != Ordering::Greater,
    {
        let ghost c = parsed_compatible(texts_of(list@), self@);
        let mut latest: Option<usize> = None;
        let mut latest_version: Option<Version> = None;
        let mut i: usize = 0;
        while i < list.len()
            invariant
                i <= list@.len(),
                c == parsed_compatible(texts_of(list@), self@),
                match latest_index(c.subrange(0, i as int)) {
                    None => latest is None && latest_version is None,
                    Some(m) => latest == Some(m as usize) && (latest_version matches Some(v)
                        && v@ == c[m]->0),
                },
            decreases list@.len() - i,
        {
            proof {
                lemma_latest_step(c, i as int);
            }
            if let Some(ver) = Version::from_str(list[i].as_str()) {
                if ver.is_compatible_with(self) {
                    let replace = match &latest_version {
                        None => true,
                        Some(best) => ver > *best,
                    };
                    if replace {
                        latest = Some(i);
                        latest_version = Some(ver);
                    }
                }
            }
            i = i + 1;
        }
        assert(c.subrange(0, i as int) =~= c);
        proof {
            lemma_latest_index_bounds(c);
            assert forall|j: int| 0 <= j < c.len() && #[trigger] c[j] is Some implies !has_wildcard(
                c[j]->0,
            ) by {}
            lemma_latest_is_greatest(c);
        }
        match latest {
            Some(m) => Some(list[m].as_str()),
            None => None,
        }
    }

    /// The entry of `list` that is the greatest version satisfying this
    /// pattern; the first of them where the scan finds no greater one.
    pub fn latest_compatible_version<'a>(&self, list: &'a Vec<Version>) -> (r: Option<&'a Version>)
        ensures
            match latest_index(compatible_candidates(views_of(list@), self@)) {
                None => r is None,
                Some(m) => r == Some(&list@[m]),
            },
            r matches Some(b) ==> forall|j: int|
                0 <= j < list@.len() && #[trigger] compatible_candidates(views_of(list@), self@)[j] is Some
                    ==> version_order(compatible_candidates(views_of(list@), self@)[j]->0, b@)
                    != Ordering::Greater,
    {
        let ghost c = compatible_candidates(views_of(list@), self@);
        let mut latest: Option<usize> = None;
        let mut i: usize = 0;
        while i < list.len()
            invariant
                i <= list@.len(),
                c == compatible_candidates(views_of(list@), self@),
                match latest_index(c.subrange(0, i as int)) {
                    None => latest is None,
                    Some(m) => latest == Some(m as usize),
                },
            decreases list@.len() - i,
        {
            proof {
                lemma_latest_step(c, i as int);
            }
            if list[i].is_compatible_with(self) {
                match latest {
                    None => {
                        latest = Some(i);
                    },
                    Some(m) => {
                        if list[i] > list[m] {
                            latest = Some(i);
                        }
                    },
                }
            }
            i = i + 1;
        }
        assert(c.subrange(0, i as int) =~= c);
        proof {
            lemma_latest_index_bounds(c);
            assert forall|j: int| 0 <= j < c.len() && #[trigger] c[j] is Some implies !has_wildcard(
                c[j]->0,
            ) by {}
            lemma_latest_is_greatest(c);
        }
        match latest {
            Some(m) => Some(&list[m]),
            None => None,
        }
    }

    /// The text of this version with `delimiter` between its segments.
    fn render_with(&self, delimiter: &str) -> (r: String)
        ensures
            r@ == rendered(self@, delimiter@),
    {
        proof {
            use_type_invariant(self);
        }
        let ghost ts = part_texts(self@);
        let mut out = String::new();
        self.parts[0].push_text(&mut out);
        assert(ts.subrange(0, 1) =~= seq![ts[0]]);
        let mut i: usize = 1;
        while i < self.parts.len()
            invariant
                1 <= i <= self.parts@.len(),
                ts == part_texts(self@),
                out@ == join_with(ts.subrange(0, i as int), delimiter@),
            decreases self.parts@.len() - i,
        {
            out.append(delimiter);
            self.parts[i].push_text(&mut out);
            proof {
                lemma_join_push(ts.subrange(0, i as int), ts[i as int], delimiter@);
                assert(ts.subrange(0, i as int).push(ts[i as int]) =~= ts.subrange(0, i + 1));
            }
            i = i + 1;
        }
        assert(ts.subrange(0, i as int) =~= ts);
        out
    }

    /// The text of this version with `.` between its segments, as `1.2.3`.
    pub fn to_string(&self) -> (r: String)
        ensures
            r@ == rendered(self@, dot()),
    {
        proof {
            reveal_strlit(".");
            assert("."@ =~= dot());
        }
        self.render_with(".")
    }

    /// The text of this version with `_` between its segments, as `1_2_3`:
    /// the form used where a `.` would be read as a separator.
    pub fn to_string_serializer(&self) -> (r: String)
        ensures
            r@ == rendered(self@, underscore()),
    {
        proof {
            reveal_strlit("_");
            assert("_"@ =~= underscore());
        }
        self.render_with("_")
    }

    /// Orders two versions for sorting: by the segments at the first index
    /// where they do not hold the same number; level if there is none.
    pub fn cmp(&self, other: &Version) -> (r: Ordering)
        ensures
            r == version_order(self@, other@),
    {
        let depth = Version::get_shared_depth(self, other);
        let mut i: usize = 0;
        while i < depth
            invariant
                depth == shared_depth(self@, other@),
                i <= depth,
                divergence(self@, other@) == divergence_from(self@, other@, i as int),
            decreases depth - i,
        {
            if self.parts[i] != other.parts[i] {
                return self.parts[i].cmp(&other.parts[i]);
            }
            i = i + 1;
        }
        Ordering::Equal
    }

    /// Whether this concrete version satisfies `other` as a pattern. A
    /// version holding a wildcard satisfies nothing; a pattern of wildcards
    /// only is satisfied by every concrete version.
    pub fn is_compatible_with(&self, other: &Version) -> (r: bool)
        ensures
            r == compatible(self@, other@),
    {
        if self.has_wildcards() {
            return false;
        }
        if other.is_wildcard() {
            return true;
        }
        if self == other {
            return true;
        }
        // The versions differ at the first index where they do not hold the
        // same number, and both hold a number there: the walk below stops
        // there on a mismatch, never on a wildcard of the pattern.
        let depth = Version::get_shared_depth(self, other);
        let mut i: usize = 0;
        while i < depth
            invariant
                depth == shared_depth(self@, other@),
                i <= depth,
                divergence(self@, other@) == divergence_from(self@, other@, i as int),
                !versions_equal(self@, other@),
                !has_wildcard(self@),
            decreases depth - i,
        {
            if let VersionPart::Number(n) = &self.parts[i] {
                match &other.parts[i] {
                    VersionPart::Number(on) => {
                        if *on != *n {
                            return false;
                        }
                    },
                    VersionPart::Wildcard(_) => {
                        return true;
                    },
                }
            }
            i = i + 1;
        }
        false
    }
}

impl PartialEq for Version {
    fn eq(&self, other: &Version) -> (r: bool) {
        let depth = Version::get_shared_depth(self, other);
        let mut i: usize = 0;
        while i < depth
            invariant
                depth == shared_depth(self@, other@),
                i <= depth,
                divergence(self@, other@) == divergence_from(self@, other@, i as int),
            decreases depth - i,
        {
            // a wildcard settles the comparison, whatever follows it
            if self.parts[i].is_wildcard() || other.parts[i].is_wildcard() {
                return true;
            }
            if self.parts[i] != other.parts[i] {
                return false;
            }
            i = i + 1;
        }
        true
    }
}

impl vstd::std_specs::cmp::PartialEqSpecImpl for Version {
    open spec fn obeys_eq_spec() -> bool {
        true
    }

    open spec fn eq_spec(&self, other: &Version) -> bool {
        versions_equal(self@, other@)
    }
}

impl Eq for Version {

}

impl PartialOrd for Version {
    fn partial_cmp(&self, other: &Version) -> (r: Option<Ordering>) {
        Some(self.cmp(other))
    }
}

impl vstd::std_specs::cmp::PartialOrdSpecImpl for Version {
    open spec fn obeys_partial_cmp_spec() -> bool {
        true
    }

    open spec fn partial_cmp_spec(&self, other: &Version) -> Option<Ordering> {
        Some(version_order(self@, other@))
    }
}

} // verus!
