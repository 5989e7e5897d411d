use vstd::prelude::*;

verus! {

/// Whether `c` is an ASCII decimal digit.
pub open spec fn is_digit(c: char) -> bool {
    48 <= (c as u32) && (c as u32) <= 57
}

/// The value of one decimal digit.
pub open spec fn digit_value(c: char) -> nat {
    ((c as u32) - 48) as nat
}

/// The number that a run of decimal digits denotes, most significant first.
pub open spec fn decimal_value(s: Seq<char>) -> nat
    decreases s.len(),
{
    if s.len() == 0 {
        0
    } else {
        decimal_value(s.drop_last()) * 10 + digit_value(s.last())
    }
}

/// The digits of an unsigned integer literal: one leading `+` is allowed.
pub open spec fn unsigned_digits(s: Seq<char>) -> Seq<char> {
    if s.len() > 0 && s[0] == '+' {
        s.drop_first()
    } else {
        s
    }
}

/// The `usize` that `s` spells, if any: an optional `+`, then at least one
/// decimal digit and nothing else, with a value that fits in a `usize`.
pub open spec fn usize_of(s: Seq<char>) -> Option<usize> {
    let d = unsigned_digits(s);
    if d.len() > 0 && (forall|i: int| 0 <= i < d.len() ==> is_digit(#[trigger] d[i]))
        && decimal_value(d) <= usize::MAX {
        Some(decimal_value(d) as usize)
    } else {
        None
    }
}

/// `k` is the position of the first `sep` in `s`.
pub open spec fn is_first(s: Seq<char>, sep: char, k: int) -> bool {
    &&& 0 <= k < s.len()
    &&& s[k] == sep
    &&& forall|j: int| 0 <= j < k ==> s[j] != sep
}

/// `s` cut at its first `sep`, which belongs to neither part; `None` when
/// `sep` does not occur.
pub open spec fn split_first(s: Seq<char>, sep: char) -> Option<(Seq<char>, Seq<char>)> {
    if exists|k: int| is_first(s, sep, k) {
        let k = choose|k: int| is_first(s, sep, k);
        Some((s.subrange(0, k), s.subrange(k + 1, s.len() as int)))
    } else {
        None
    }
}

/// The image size that a `WIDTHxHEIGHT` token spells; both sizes must be
/// positive.
pub open spec fn bounds_of(s: Seq<char>) -> Option<(usize, usize)> {
    match split_first(s, 'x') {
        Some(parts) => match (usize_of(parts.0), usize_of(parts.1)) {
            (Some(w), Some(h)) => if w > 0 && h > 0 {
                Some((w, h))
            } else {
                None
            },
            _ => None,
        },
        None => None,
    }
}

proof fn lemma_decimal_value_push(s: Seq<char>, c: char)
    ensures
        decimal_value(s.push(c)) == decimal_value(s) * 10 + digit_value(c),
{
    assert(s.push(c).drop_last() =~= s);
}

/// A prefix of a digit run never denotes more than the whole run.
proof fn lemma_decimal_value_prefix(s: Seq<char>, k: int)
    requires
        0 <= k <= s.len(),
    ensures
        decimal_value(s.subrange(0, k)) <= decimal_value(s),
    decreases s.len() - k,
{
    if k < s.len() {
        lemma_decimal_value_prefix(s, k + 1);
        assert(s.subrange(0, k + 1).drop_last() =~= s.subrange(0, k));
    } else {
        assert(s.subrange(0, k) =~= s);
    }
}

/// Reads an unsigned decimal integer the way `usize`'s `FromStr` does.
pub fn parse_usize(s: &str) -> (r: Option<usize>)
    ensures
        r == usize_of(s@),
{
    let n = s.unicode_len();
    let mut start: usize = 0;
    if n > 0 && s.get_char(0) == '+' {
        start = 1;
    }
    let ghost d = unsigned_digits(s@);
    assert(d =~= s@.subrange(start as int, n as int));
    if start == n {
        return None;
    }
    let mut acc: usize = 0;
    let mut i: usize = start;
    while i < n
        invariant
            start <= i <= n,
            n == s@.len(),
            d == unsigned_digits(s@),
            d == s@.subrange(start as int, n as int),
            forall|k: int| start <= k < i ==> is_digit(#[trigger] s@[k]),
            acc == decimal_value(s@.subrange(start as int, i as int)),
        decreases n - i,
    {
        let c = s.get_char(i);
        let code = c as u32;
        if code < 48 || code > 57 {
            assert(d[i - start] == s@[i as int]);
            assert(!is_digit(d[i - start]));
            assert(!(forall|k: int| 0 <= k < d.len() ==> is_digit(#[trigger] d[k])));
            return None;
        }
        let digit = (code - 48) as usize;
        proof {
            assert(s@.subrange(start as int, i + 1) =~= s@.subrange(start as int, i as int).push(c));
            lemma_decimal_value_push(s@.subrange(start as int, i as int), c);
        }
        let next = match acc.checked_mul(10) {
            Some(m) => m.checked_add(digit),
            None => None,
        };
        match next {
            Some(v) => {
                acc = v;
            },
            None => {
                proof {
                    assert(d.subrange(0, i + 1 - start) =~= s@.subrange(start as int, i + 1));
                    lemma_decimal_value_prefix(d, i + 1 - start);
                    assert(acc * 10 + digit > usize::MAX) by (nonlinear_arith)
                        requires
                            next is None,
                            next == (if acc * 10 > usize::MAX { None } else {
                                if acc * 10 + digit > usize::MAX { None } else { Some((acc * 10 + digit) as usize) }
                            }),
                    ;
                }
                return None;
            },
        }
        i += 1;
    }
    assert(s@.subrange(start as int, n as int) =~= d);
    assert forall|k: int| 0 <= k < d.len() implies is_digit(#[trigger] d[k]) by {
        assert(d[k] == s@[k + start]);
    }
    Some(acc)
}

/// Cuts `s` at the first occurrence of `sep`.
pub fn split_first_at(s: &str, sep: char) -> (r: Option<(&str, &str)>)
    ensures
        match r {
            Some(parts) => split_first(s@, sep) == Some((parts.0@, parts.1@)),
            None => split_first(s@, sep) is None,
        },
{
    let n = s.unicode_len();
    let mut i: usize = 0;
    while i < n
        invariant
            i <= n,
            n == s@.len(),
            forall|j: int| 0 <= j < i ==> s@[j] != sep,
        decreases n - i,
    {
        if s.get_char(i) == sep {
            assert(is_first(s@, sep, i as int));
            let ghost k = choose|k: int| is_first(s@, sep, k);
            assert(k == i);
            let left = s.substring_char(0, i);
            let right = s.substring_char(i + 1, n);
            return Some((left, right));
        }
        i += 1;
    }
    None
}

/// Reads an image size written `WIDTHxHEIGHT`, such as `1000x750`. A zero
/// width or height is rejected.
pub fn parse_bounds(bounds: &str) -> (r: Option<(usize, usize)>)
    ensures
        r == bounds_of(bounds@),
        r matches Some((w, h)) ==> w > 0 && h > 0,
{
    match split_first_at(bounds, 'x') {
        Some(parts) => {
            match (parse_usize(parts.0), parse_usize(parts.1)) {
                (Some(w), Some(h)) => if w > 0 && h > 0 {
                    Some((w, h))
                } else {
                    None
                },
                _ => None,
            }
        },
        None => None,
    }
}

} // verus!
