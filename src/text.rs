//! The textual grammar of versions: decimal numbers, splitting on a delimiter.
use vstd::prelude::*;
use vstd::string::*;

verus! {

pub open spec fn is_digit(c: char) -> bool {
    '0' <= c && c <= '9'
}

pub open spec fn digit_value(c: char) -> int {
    c as int - '0' as int
}

/// The character that writes the decimal digit `d`.
pub open spec fn digit_char(d: int) -> char {
    ((d + '0' as int) as u32) as char
}

/// The number that a string of decimal digits writes (leading zeros allowed).
pub open spec fn digits_value(s: Seq<char>) -> int
    decreases s.len(),
{
    if s.len() == 0 {
        0
    } else {
        digits_value(s.drop_last()) * 10 + digit_value(s.last())
    }
}

pub open spec fn all_digits(s: Seq<char>) -> bool {
    forall|i: int| 0 <= i < s.len() ==> is_digit(#[trigger] s[i])
}

/// The digits of a number's text, past an optional leading `+`.
pub open spec fn unsigned_body(s: Seq<char>) -> Seq<char> {
    if s.len() > 0 && s[0] == '+' {
        s.drop_first()
    } else {
        s
    }
}

/// The texts that name a `u8`: an optional `+`, then at least one decimal
/// digit, with a value of at most 255.
pub open spec fn is_u8_text(s: Seq<char>) -> bool {
    let body = unsigned_body(s);
    body.len() > 0 && all_digits(body) && digits_value(body) <= 255
}

pub open spec fn u8_text_value(s: Seq<char>) -> u8 {
    digits_value(unsigned_body(s)) as u8
}

/// The shortest decimal text of `n`.
pub open spec fn decimal(n: nat) -> Seq<char>
    decreases n,
{
    if n < 10 {
        seq![digit_char(n as int)]
    } else {
        decimal(n / 10).push(digit_char((n % 10) as int))
    }
}

/// Whether `d` occurs in `s` at position `p`.
pub open spec fn occurs_at(s: Seq<char>, d: Seq<char>, p: int) -> bool {
    0 <= p && p + d.len() <= s.len() && s.subrange(p, p + d.len()) == d
}

/// The first position at or after `p` where `d` occurs in `s`.
pub open spec fn find_from(s: Seq<char>, d: Seq<char>, p: int) -> Option<int>
    decreases s.len() + 1 - p,
{
    if p < 0 || p + d.len() > s.len() {
        None
    } else if s.subrange(p, p + d.len()) == d {
        Some(p)
    } else {
        find_from(s, d, p + 1)
    }
}

/// The pieces of `s` between the occurrences of the non-empty delimiter `d`,
/// found left to right without overlap.
pub open spec fn split_by(s: Seq<char>, d: Seq<char>) -> Seq<Seq<char>>
    decreases s.len(),
{
    if d.len() == 0 {
        seq![s]
    } else {
        match find_from(s, d, 0) {
            None => seq![s],
            Some(k) => {
                proof {
                    lemma_find_from_bounds(s, d, 0);
                }
                seq![s.subrange(0, k)] + split_by(s.subrange(k + d.len(), s.len() as int), d)
            },
        }
    }
}

/// The pieces joined, with `d` between each two of them.
pub open spec fn join_with(pieces: Seq<Seq<char>>, d: Seq<char>) -> Seq<char>
    decreases pieces.len(),
{
    if pieces.len() == 0 {
        Seq::empty()
    } else if pieces.len() == 1 {
        pieces[0]
    } else {
        pieces[0] + d + join_with(pieces.drop_first(), d)
    }
}

pub proof fn lemma_find_from_bounds(s: Seq<char>, d: Seq<char>, p: int)
    ensures
        find_from(s, d, p) matches Some(k) ==> p <= k && k + d.len() <= s.len() && occurs_at(
            s,
            d,
            k,
        ),
    decreases s.len() + 1 - p,
{
    if !(p < 0 || p + d.len() > s.len()) && s.subrange(p, p + d.len()) != d {
        lemma_find_from_bounds(s, d, p + 1);
    }
}


pub proof fn lemma_digits_value_grows(s: Seq<char>, i: int)
    requires
        all_digits(s),
        0 <= i <= s.len(),
    ensures
        0 <= digits_value(s.subrange(0, i)) <= digits_value(s),
    decreases s.len(),
{
    if i < s.len() {
        let t = s.drop_last();
        assert(all_digits(t)) by {
            assert forall|j: int| 0 <= j < t.len() implies is_digit(#[trigger] t[j]) by {
                assert(is_digit(s[j]));
            }
        }
        assert(is_digit(s[s.len() - 1]));
        lemma_digits_value_grows(t, i);
        lemma_digits_value_grows(t, t.len() as int);
        assert(t.subrange(0, t.len() as int) =~= t);
        assert(t.subrange(0, i) =~= s.subrange(0, i));
    } else {
        assert(s.subrange(0, i) =~= s);
        if s.len() > 0 {
            lemma_digits_value_grows(s.drop_last(), s.len() - 1);
            assert(s.drop_last().subrange(0, s.len() - 1) =~= s.drop_last());
            assert(is_digit(s[s.len() - 1]));
        }
    }
}

pub proof fn lemma_find_skips(s: Seq<char>, d: Seq<char>, p: int, k: int)
    requires
        0 <= p <= k,
        forall|q: int| p <= q < k ==> !#[trigger] occurs_at(s, d, q),
    ensures
        find_from(s, d, p) == find_from(s, d, k),
    decreases k - p,
{
    if p < k {
        assert(!occurs_at(s, d, p));
        lemma_find_skips(s, d, p + 1, k);
    }
}

/// Splitting cuts at the first occurrence of the delimiter.
pub proof fn lemma_split_at_first(s: Seq<char>, d: Seq<char>, k: int)
    requires
        d.len() > 0,
        occurs_at(s, d, k),
        forall|q: int| 0 <= q < k ==> !#[trigger] occurs_at(s, d, q),
    ensures
        split_by(s, d) == seq![s.subrange(0, k)] + split_by(
            s.subrange(k + d.len(), s.len() as int),
            d,
        ),
{
    lemma_find_skips(s, d, 0, k);
}

/// Text in which the delimiter does not occur is a single piece.
pub proof fn lemma_split_whole(s: Seq<char>, d: Seq<char>)
    requires
        d.len() > 0,
        forall|q: int| 0 <= q < s.len() ==> !#[trigger] occurs_at(s, d, q),
    ensures
        split_by(s, d) == seq![s],
{
    lemma_find_skips(s, d, 0, s.len() as int);
}

/// Appending a piece to a non-empty list puts the delimiter and the piece at
/// the end of the joined text.
pub proof fn lemma_join_push(pieces: Seq<Seq<char>>, p: Seq<char>, d: Seq<char>)
    requires
        pieces.len() >= 1,
    ensures
        join_with(pieces.push(p), d) == join_with(pieces, d) + d + p,
    decreases pieces.len(),
{
    assert(pieces.push(p)[0] == pieces[0]);
    if pieces.len() == 1 {
        assert(pieces.push(p).drop_first() =~= seq![p]);
        assert(join_with(seq![p], d) == p);
    } else {
        lemma_join_push(pieces.drop_first(), p, d);
        assert(pieces.push(p).drop_first() =~= pieces.drop_first().push(p));
        assert(pieces[0] + d + (join_with(pieces.drop_first(), d) + d + p) =~= pieces[0] + d
            + join_with(pieces.drop_first(), d) + d + p);
    }
}

/// Splitting undoes joining with a one-character delimiter that no piece holds.
pub proof fn lemma_split_join(pieces: Seq<Seq<char>>, c: char)
    requires
        pieces.len() >= 1,
        forall|i: int, j: int|
            0 <= i < pieces.len() && 0 <= j < pieces[i].len() ==> #[trigger] pieces[i][j] != c,
    ensures
        split_by(join_with(pieces, seq![c]), seq![c]) == pieces,
    decreases pieces.len(),
{
    let d = seq![c];
    let s = join_with(pieces, d);
    let p0 = pieces[0];
    assert forall|q: int| 0 <= q < p0.len() implies !#[trigger] occurs_at(s, d, q) by {
        if occurs_at(s, d, q) {
            assert(s.subrange(q, q + 1)[0] == s[q]);
            assert(pieces[0][q] != c);
        }
    }
    if pieces.len() == 1 {
        lemma_split_whole(s, d);
        assert(seq![p0] =~= pieces);
    } else {
        let rest = pieces.drop_first();
        assert(s == p0 + d + join_with(rest, d));
        assert(s.subrange(p0.len() as int, p0.len() as int + 1) =~= d);
        lemma_split_at_first(s, d, p0.len() as int);
        assert(s.subrange(0, p0.len() as int) =~= p0);
        assert(s.subrange(p0.len() as int + 1, s.len() as int) =~= join_with(rest, d));
        assert forall|i: int, j: int|
            0 <= i < rest.len() && 0 <= j < rest[i].len() implies #[trigger] rest[i][j] != c by {
            assert(rest[i] == pieces[i + 1]);
        }
        lemma_split_join(rest, c);
        assert(seq![p0] + rest =~= pieces);
    }
}

pub proof fn lemma_digit_char(d: int)
    requires
        0 <= d < 10,
    ensures
        is_digit(digit_char(d)),
        digit_value(digit_char(d)) == d,
{
}

/// The decimal text of a number is made of digits and reads back as it.
pub proof fn lemma_decimal(n: nat)
    ensures
        decimal(n).len() > 0,
        all_digits(decimal(n)),
        digits_value(decimal(n)) == n,
    decreases n,
{
    if n < 10 {
        lemma_digit_char(n as int);
        assert(seq![digit_char(n as int)].drop_last() =~= Seq::<char>::empty());
        assert(digits_value(Seq::<char>::empty()) == 0);
    } else {
        lemma_decimal(n / 10);
        lemma_digit_char((n % 10) as int);
        let s = decimal(n);
        assert(s.drop_last() =~= decimal(n / 10));
        assert(n == (n / 10) * 10 + n % 10) by (nonlinear_arith);
        assert forall|i: int| 0 <= i < s.len() implies is_digit(#[trigger] s[i]) by {
            if i < s.len() - 1 {
                assert(s[i] == decimal(n / 10)[i]);
            }
        }
    }
}

/// The decimal text of a `u8` is a `u8` text that names it.
pub proof fn lemma_decimal_u8(n: u8)
    ensures
        is_u8_text(decimal(n as nat)),
        u8_text_value(decimal(n as nat)) == n,
        forall|j: int| 0 <= j < decimal(n as nat).len() ==> is_digit(#[trigger] decimal(n as nat)[j]),
{
    lemma_decimal(n as nat);
    assert(is_digit(decimal(n as nat)[0]));
    assert(unsigned_body(decimal(n as nat)) == decimal(n as nat));
}

/// The characters of `s`, one per element.
pub fn chars_of(s: &str) -> (r: Vec<char>)
    ensures
        r@ == s@,
{
    let n = s.unicode_len();
    let mut r: Vec<char> = Vec::new();
    let mut i: usize = 0;
    while i < n
        invariant
            n == s@.len(),
            i <= n,
            r@ == s@.subrange(0, i as int),
        decreases n - i,
    {
        r.push(s.get_char(i));
        i = i + 1;
    }
    assert(r@ =~= s@);
    r
}

/// Reads the characters `s[from..to]` as a `u8`, as `u8`'s `FromStr` does.
pub fn parse_u8(s: &Vec<char>, from: usize, to: usize) -> (r: Option<u8>)
    requires
        from <= to <= s@.len(),
    ensures
        r == (if is_u8_text(s@.subrange(from as int, to as int)) {
            Some(u8_text_value(s@.subrange(from as int, to as int)))
        } else {
            None
        }),
{
    let ghost text = s@.subrange(from as int, to as int);
    let mut start = from;
    if start < to && s[start] == '+' {
        start = start + 1;
    }
    let ghost body = s@.subrange(start as int, to as int);
    assert(body =~= unsigned_body(text));
    if start == to {
        return None;
    }
    let mut value: u32 = 0;
    let mut i = start;
    while i < to
        invariant
            from <= start <= i <= to <= s@.len(),
            body == s@.subrange(start as int, to as int),
            body == unsigned_body(text),
            text == s@.subrange(from as int, to as int),
            all_digits(s@.subrange(start as int, i as int)),
            value == digits_value(s@.subrange(start as int, i as int)),
            value <= 255,
        decreases to - i,
    {
        let c = s[i];
        if !('0' <= c && c <= '9') {
            assert(body[i - start] == c);
            assert(!is_digit(body[i - start]));
            return None;
        }
        let ghost next = s@.subrange(start as int, i + 1);
        assert(next.drop_last() =~= s@.subrange(start as int, i as int));
        value = value * 10 + (c as u32 - '0' as u32);
        assert(all_digits(next)) by {
            assert forall|j: int| 0 <= j < next.len() implies is_digit(#[trigger] next[j]) by {
                if j < next.len() - 1 {
                    assert(next[j] == s@.subrange(start as int, i as int)[j]);
                }
            }
        }
        if value > 255 {
            proof {
                if all_digits(body) {
                    lemma_digits_value_grows(body, i + 1 - start);
                    assert(body.subrange(0, i + 1 - start) =~= next);
                }
            }
            return None;
        }
        i = i + 1;
    }
    assert(s@.subrange(start as int, i as int) =~= body);
    Some(value as u8)
}

/// The one-character text of the decimal digit `d`.
fn digit_text(d: u8) -> (r: &'static str)
    requires
        d < 10,
    ensures
        r@ == seq![digit_char(d as int)],
{
    proof {
        reveal_strlit("0");
        reveal_strlit("1");
        reveal_strlit("2");
        reveal_strlit("3");
        reveal_strlit("4");
        reveal_strlit("5");
        reveal_strlit("6");
        reveal_strlit("7");
        reveal_strlit("8");
        reveal_strlit("9");
    }
    match d {
        0 => "0",
        1 => "1",
        2 => "2",
        3 => "3",
        4 => "4",
        5 => "5",
        6 => "6",
        7 => "7",
        8 => "8",
        _ => "9",
    }
}

/// Appends the decimal text of `n` to `out`.
pub fn push_decimal(out: &mut String, n: u8)
    ensures
        final(out)@ == old(out)@ + decimal(n as nat),
{
    let ghost start = out@;
    if n >= 100 {
        out.append(digit_text(n / 100));
    }
    if n >= 10 {
        out.append(digit_text((n / 10) % 10));
    }
    out.append(digit_text(n % 10));
    proof {
        let m = n as nat;
        if m >= 100 {
            assert(decimal(m / 100) == seq![digit_char((m / 100) as int)]);
            assert(decimal(m / 10) == decimal(m / 100).push(digit_char(((m / 10) % 10) as int)));
        } else if m >= 10 {
            assert(decimal(m / 10) == seq![digit_char((m / 10) as int)]);
        }
        assert(out@ =~= start + decimal(m));
    }
}

/// Whether the characters of `d` occur in `s` at position `p`.
pub fn occurs_at_exec(s: &Vec<char>, d: &Vec<char>, p: usize) -> (r: bool)
    requires
        p <= s@.len(),
    ensures
        r == occurs_at(s@, d@, p as int),
{
    if d.len() > s.len() - p {
        return false;
    }
    let mut j: usize = 0;
    while j < d.len()
        invariant
            p + d@.len() <= s@.len() <= usize::MAX,
            j <= d@.len(),
            forall|k: int| 0 <= k < j ==> s@[p + k] == d@[k],
        decreases d@.len() - j,
    {
        if s[p + j] != d[j] {
            assert(s@.subrange(p as int, p + d@.len())[j as int] != d@[j as int]);
            return false;
        }
        j = j + 1;
    }
    assert(s@.subrange(p as int, p + d@.len()) =~= d@);
    true
}
} // verus!
