use vstd::prelude::*;

verus! {

/// How far the next non-empty token lies from `tokens[0]`: the first
/// position after 0 that holds a non-empty token, or the length of `tokens`
/// (at least 1) when none does.
pub fn find_next_token(tokens: &[&str]) -> (t: usize)
    ensures
        t >= 1,
        t <= tokens@.len() || t == 1,
        forall|k: int| 1 <= k < t ==> (#[trigger] tokens@[k])@.len() == 0,
        t < tokens@.len() ==> tokens@[t as int]@.len() > 0,
{
    let mut t: usize = 1;
    while t < tokens.len() && tokens[t].is_empty()
        invariant
            1 <= t,
            t <= tokens@.len() || t == 1,
            forall|k: int| 1 <= k < t ==> (#[trigger] tokens@[k])@.len() == 0,
        decreases tokens@.len() - t,
    {
        t = t + 1;
    }
    t
}

/// Whether `param` is one of the statement words `v`, `f`, `o` of an OBJ file.
pub fn is_keyword(param: &str) -> (r: bool)
    ensures
        r == (param@ == seq!['v'] || param@ == seq!['f'] || param@ == seq!['o']),
{
    if param.unicode_len() != 1 {
        return false;
    }
    let c = param.get_char(0);
    let r = c == 'v' || c == 'f' || c == 'o';
    proof {
        if r {
            assert(param@ =~= seq![c]);
        }
    }
    r
}

/// The part of a face corner `v/vt/vn` before the first `/`.
pub open spec fn first_field(s: Seq<char>) -> Seq<char>
    decreases s.len(),
{
    if s.len() == 0 || s[0] == '/' {
        Seq::empty()
    } else {
        seq![s[0]] + first_field(s.drop_first())
    }
}

/// An ASCII decimal digit.
pub open spec fn is_digit(c: char) -> bool {
    '0' <= c <= '9'
}

/// The number that the decimal digits `d` spell.
pub open spec fn digits_value(d: Seq<char>) -> nat
    decreases d.len(),
{
    if d.len() == 0 {
        0
    } else {
        digits_value(d.drop_last()) * 10 + (d.last() as nat - '0' as nat) as nat
    }
}

/// The digits of a number: `s` without a leading `+`.
pub open spec fn unsigned_digits(s: Seq<char>) -> Seq<char> {
    if s.len() > 0 && s[0] == '+' {
        s.drop_first()
    } else {
        s
    }
}

/// Every character of `d` is a decimal digit.
pub open spec fn all_digits(d: Seq<char>) -> bool {
    forall|i: int| 0 <= i < d.len() ==> is_digit(#[trigger] d[i])
}

/// What `usize` parsing reads from `s`: an optional `+` and at least one
/// decimal digit, with a value that fits.
pub open spec fn parse_usize_spec(s: Seq<char>) -> Option<nat> {
    let d = unsigned_digits(s);
    if d.len() > 0 && all_digits(d) && digits_value(d) <= usize::MAX {
        Some(digits_value(d))
    } else {
        None
    }
}

/// `first_field` is the prefix of `s` up to its first `/`.
proof fn lemma_first_field_prefix(s: Seq<char>)
    ensures
        first_field(s).len() <= s.len(),
        forall|i: int| 0 <= i < first_field(s).len() ==> #[trigger] first_field(s)[i] == s[i] && s[i] != '/',
        first_field(s).len() < s.len() ==> s[first_field(s).len() as int] == '/',
    decreases s.len(),
{
    if s.len() > 0 && s[0] != '/' {
        lemma_first_field_prefix(s.drop_first());
    }
}

/// The vertex index of a face corner `v/vt/vn`: the number before the first
/// `/`, or `None` when that part is not a number that fits.
pub fn get_v_index(param: &str) -> (r: Option<usize>)
    ensures
        r matches Some(n) ==> parse_usize_spec(first_field(param@)) == Some(n as nat),
        r is None ==> parse_usize_spec(first_field(param@)) is None,
{
    let len = param.unicode_len();
    let ghost f = first_field(param@);
    proof {
        lemma_first_field_prefix(param@);
    }
    let mut end: usize = 0;
    while end < len && param.get_char(end) != '/'
        invariant
            len == param@.len(),
            end <= len,
            end <= f.len(),
            forall|i: int| 0 <= i < end ==> param@[i] != '/',
            f.len() <= len,
            forall|i: int| 0 <= i < f.len() ==> #[trigger] f[i] == param@[i] && param@[i] != '/',
            f.len() < len ==> param@[f.len() as int] == '/',
        decreases len - end,
    {
        end = end + 1;
    }
    proof {
        if end < f.len() {
            assert(f[end as int] == param@[end as int]);
        }
    }
    assert(end == f.len());
    let mut start: usize = 0;
    if end > 0 && param.get_char(0) == '+' {
        start = 1;
    }
    let ghost d = f.subrange(start as int, end as int);
    assert(d =~= unsigned_digits(f));
    if start == end {
        return None;
    }
    let mut value: usize = 0;
    let mut i: usize = start;
    while i < end
        invariant
            start <= i <= end,
            end == f.len(),
            end <= len,
            len == param@.len(),
            d == f.subrange(start as int, end as int),
            d == unsigned_digits(f),
            f == first_field(param@),
            forall|k: int| 0 <= k < f.len() ==> #[trigger] f[k] == param@[k],
            forall|k: int| start <= k < i ==> is_digit(#[trigger] f[k]),
            value == digits_value(f.subrange(start as int, i as int)),
        decreases end - i,
    {
        let c = param.get_char(i);
        if !('0' <= c && c <= '9') {
            assert(f[i as int] == c);
            assert(d[i - start] == f[i as int]);
            assert(!is_digit(d[i - start]));
            assert(!all_digits(d));
            return None;
        }
        let digit: usize = (c as u32 - '0' as u32) as usize;
        proof {
            assert(f.subrange(start as int, i + 1).drop_last() =~= f.subrange(start as int, i as int));
        }
        if value > (usize::MAX - digit) / 10 {
            proof {
                let p = f.subrange(start as int, i + 1);
                assert(f[i as int] == c);
                assert(p.last() == c);
                assert(value * 10 + digit > usize::MAX) by (nonlinear_arith)
                    requires
                        value > (usize::MAX - digit) / 10,
                        digit <= 9,
                ;
                assert(digits_value(p) > usize::MAX);
                assert(p =~= d.take(i + 1 - start));
                lemma_digits_prefix_grows(d, i + 1 - start);
            }
            return None;
        }
        value = value * 10 + digit;
        i = i + 1;
    }
    assert(f.subrange(start as int, end as int) =~= d);
    Some(value)
}

/// The value of a digit string is at least that of each of its prefixes.
proof fn lemma_digits_prefix_grows(d: Seq<char>, k: int)
    requires
        0 <= k <= d.len(),
    ensures
        all_digits(d) ==> digits_value(d)
            >= digits_value(d.take(k)),
    decreases d.len() - k,
{
    if k == d.len() {
        assert(d.take(k) =~= d);
    } else if all_digits(d) {
        lemma_digits_prefix_grows(d, k + 1);
        assert(d.take(k + 1).drop_last() =~= d.take(k));
        assert(is_digit(d[k]));
        assert(digits_value(d.take(k + 1)) >= digits_value(d.take(k)));
    }
}

} // verus!
