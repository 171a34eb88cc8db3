//! Character-level text handling: whitespace, fields, lines, words and
//! integer literals.
use vstd::prelude::*;
use vstd::slice::slice_subrange;

verus! {

/// The characters that carry the Unicode `White_Space` property.
pub open spec fn white_space(c: char) -> bool {
    let u = c as u32;
    (0x09 <= u && u <= 0x0D) || u == 0x20 || u == 0x85 || u == 0xA0 || u == 0x1680 || (0x2000
        <= u && u <= 0x200A) || u == 0x2028 || u == 0x2029 || u == 0x202F || u == 0x205F || u
        == 0x3000
}

/// Whether `c` has the Unicode `White_Space` property.
pub fn is_white(c: char) -> (r: bool)
    ensures
        r == white_space(c),
{
    let u = c as u32;
    (0x09 <= u && u <= 0x0D) || u == 0x20 || u == 0x85 || u == 0xA0 || u == 0x1680 || (0x2000
        <= u && u <= 0x200A) || u == 0x2028 || u == 0x2029 || u == 0x202F || u == 0x205F || u
        == 0x3000
}

/// Relies on `str::chars`: the characters of the text, in order.
#[verifier::external_body]
pub(crate) fn chars_of(s: &str) -> (r: Vec<char>)
    ensures
        r@ == s@,
{
    s.chars().collect()
}

/// Relies on `FromIterator<&char> for String`: the string made of the given
/// characters, in order.
#[verifier::external_body]
pub(crate) fn string_of(cs: &[char]) -> (r: String)
    ensures
        r@ == cs@,
{
    cs.iter().collect()
}

/// The character views of a sequence of strings.
pub open spec fn views(v: Seq<String>) -> Seq<Seq<char>> {
    v.map_values(|s: String| s@)
}

/// A text cut at every separator: the pieces between separators, empty ones
/// included, so that `n` separators give `n + 1` pieces.
pub open spec fn fields(s: Seq<char>, is_sep: spec_fn(char) -> bool) -> Seq<Seq<char>>
    decreases s.len(),
{
    if s.len() == 0 {
        seq![Seq::empty()]
    } else {
        let p = fields(s.drop_last(), is_sep);
        if is_sep(s.last()) {
            p.push(Seq::empty())
        } else {
            p.drop_last().push(p.last().push(s.last()))
        }
    }
}

pub open spec fn newline_sep() -> spec_fn(char) -> bool {
    |c: char| c == '\n'
}

pub open spec fn white_sep() -> spec_fn(char) -> bool {
    |c: char| white_space(c)
}

pub open spec fn is_blank(l: Seq<char>) -> bool {
    forall|i: int| 0 <= i < l.len() ==> white_space(#[trigger] l[i])
}

/// A line without the carriage return of a `\r\n` ending.
pub open spec fn strip_cr(l: Seq<char>) -> Seq<char> {
    if l.len() > 0 && l.last() == '\r' {
        l.drop_last()
    } else {
        l
    }
}

/// The pieces that are not blank, in order.
pub open spec fn keep_nonblank(ls: Seq<Seq<char>>) -> Seq<Seq<char>>
    decreases ls.len(),
{
    if ls.len() == 0 {
        Seq::empty()
    } else {
        let k = keep_nonblank(ls.drop_last());
        if is_blank(ls.last()) {
            k
        } else {
            k.push(ls.last())
        }
    }
}

/// The pieces that are not empty, in order.
pub open spec fn keep_nonempty(ls: Seq<Seq<char>>) -> Seq<Seq<char>>
    decreases ls.len(),
{
    if ls.len() == 0 {
        Seq::empty()
    } else {
        let k = keep_nonempty(ls.drop_last());
        if ls.last().len() == 0 {
            k
        } else {
            k.push(ls.last())
        }
    }
}

/// The lines of a text (ended by `\n` or `\r\n`) that are not blank, in order.
pub open spec fn nonblank_lines(s: Seq<char>) -> Seq<Seq<char>> {
    keep_nonblank(fields(s, newline_sep()).map_values(|l: Seq<char>| strip_cr(l)))
}

/// The maximal runs of characters that are not whitespace, in order.
pub open spec fn words(s: Seq<char>) -> Seq<Seq<char>> {
    keep_nonempty(fields(s, white_sep()))
}

pub open spec fn sep_of(by_white: bool) -> spec_fn(char) -> bool {
    if by_white {
        white_sep()
    } else {
        newline_sep()
    }
}

pub open spec fn spans(cs: Seq<char>, r: Seq<(usize, usize)>) -> Seq<Seq<char>> {
    r.map_values(|p: (usize, usize)| cs.subrange(p.0 as int, p.1 as int))
}

/// The bounds of the fields of `cs`, cut at whitespace or at newlines.
fn field_bounds(cs: &Vec<char>, by_white: bool) -> (r: Vec<(usize, usize)>)
    ensures
        spans(cs@, r@) == fields(cs@, sep_of(by_white)),
        forall|k: int| #![trigger r@[k]] 0 <= k < r@.len() ==> r@[k].0 <= r@[k].1 <= cs@.len(),
{
    let ghost sep = sep_of(by_white);
    let mut r: Vec<(usize, usize)> = Vec::new();
    let mut start: usize = 0;
    let mut i: usize = 0;
    proof {
        assert(cs@.take(0) =~= Seq::<char>::empty());
        assert(spans(cs@, r@).push(cs@.subrange(0, 0)) =~= fields(cs@.take(0), sep));
    }
    while i < cs.len()
        invariant
            start <= i <= cs@.len(),
            sep == sep_of(by_white),
            forall|k: int| #![trigger r@[k]] 0 <= k < r@.len() ==> r@[k].0 <= r@[k].1 <= cs@.len(),
            spans(cs@, r@).push(cs@.subrange(start as int, i as int)) == fields(
                cs@.take(i as int),
                sep,
            ),
        decreases cs@.len() - i,
    {
        let c = cs[i];
        let cut = if by_white {
            is_white(c)
        } else {
            c == '\n'
        };
        let ghost p = fields(cs@.take(i as int), sep);
        proof {
            assert(cs@.take(i + 1).drop_last() =~= cs@.take(i as int));
            assert(cs@.take(i + 1).last() == c);
            assert(sep(c) == cut);
        }
        if cut {
            let ghost prev = r@;
            r.push((start, i));
            proof {
                assert(spans(cs@, r@) =~= spans(cs@, prev).push(
                    cs@.subrange(start as int, i as int),
                ));
                assert(cs@.subrange(i + 1, i + 1) =~= Seq::<char>::empty());
                assert(fields(cs@.take(i + 1), sep) == p.push(Seq::empty()));
            }
            start = i + 1;
        } else {
            proof {
                assert(cs@.subrange(start as int, i + 1) =~= cs@.subrange(
                    start as int,
                    i as int,
                ).push(c));
                assert(p.drop_last() =~= spans(cs@, r@));
                assert(fields(cs@.take(i + 1), sep) == p.drop_last().push(p.last().push(c)));
                assert(spans(cs@, r@).push(cs@.subrange(start as int, i + 1)) =~= fields(
                    cs@.take(i + 1),
                    sep,
                ));
            }
        }
        i = i + 1;
    }
    let ghost prev = r@;
    r.push((start, i));
    proof {
        assert(cs@.take(i as int) =~= cs@);
        assert(spans(cs@, r@) =~= spans(cs@, prev).push(cs@.subrange(start as int, i as int)));
        assert forall|k: int| #![trigger r@[k]] 0 <= k < r@.len() implies r@[k].0 <= r@[k].1
            <= cs@.len() by {
            if k < prev.len() {
                assert(r@[k] == prev[k]);
            }
        }
    }
    r
}

/// Whether every character of `cs[a..b]` is whitespace.
fn blank_range(cs: &Vec<char>, a: usize, b: usize) -> (r: bool)
    requires
        a <= b <= cs@.len(),
    ensures
        r == is_blank(cs@.subrange(a as int, b as int)),
{
    let mut i: usize = a;
    while i < b
        invariant
            a <= i <= b <= cs@.len(),
            forall|j: int| a <= j < i ==> white_space(#[trigger] cs@[j]),
        decreases b - i,
    {
        if !is_white(cs[i]) {
            assert(cs@.subrange(a as int, b as int)[i - a] == cs@[i as int]);
            return false;
        }
        i = i + 1;
    }
    assert forall|j: int| 0 <= j < b - a implies white_space(
        #[trigger] cs@.subrange(a as int, b as int)[j],
    ) by {
        assert(cs@.subrange(a as int, b as int)[j] == cs@[a + j]);
    }
    true
}

/// The lines of `text` that are not blank, in order, each without its line
/// ending.
pub fn nonblank_lines_of(text: &str) -> (r: Vec<String>)
    ensures
        views(r@) == nonblank_lines(text@),
{
    let cs = chars_of(text);
    let bounds = field_bounds(&cs, false);
    let ghost stripped = fields(cs@, newline_sep()).map_values(|l: Seq<char>| strip_cr(l));
    let mut out: Vec<String> = Vec::new();
    let mut k: usize = 0;
    while k < bounds.len()
        invariant
            k <= bounds@.len(),
            spans(cs@, bounds@) == fields(cs@, sep_of(false)),
            forall|m: int| #![trigger bounds@[m]] 0 <= m < bounds@.len() ==> bounds@[m].0
                <= bounds@[m].1 <= cs@.len(),
            stripped.len() == bounds@.len(),
            stripped == fields(cs@, newline_sep()).map_values(|l: Seq<char>| strip_cr(l)),
            views(out@) == keep_nonblank(stripped.take(k as int)),
        decreases bounds@.len() - k,
    {
        let (a, e) = bounds[k];
        let b = if e > a && cs[e - 1] == '\r' {
            e - 1
        } else {
            e
        };
        proof {
            let piece = cs@.subrange(a as int, e as int);
            assert(spans(cs@, bounds@)[k as int] == piece);
            assert(stripped[k as int] == strip_cr(piece));
            assert(cs@.subrange(a as int, b as int) =~= strip_cr(piece));
            assert(stripped.take(k + 1).drop_last() =~= stripped.take(k as int));
            assert(stripped.take(k + 1).last() == stripped[k as int]);
        }
        if !blank_range(&cs, a, b) {
            let line = string_of(slice_subrange(cs.as_slice(), a, b));
            let ghost prev = out@;
            out.push(line);
            proof {
                assert(views(out@) =~= views(prev).push(line@));
            }
        }
        k = k + 1;
    }
    proof {
        assert(stripped.take(k as int) =~= stripped);
    }
    out
}

/// The words of `s`: its maximal runs of characters that are not whitespace,
/// in order.
pub fn words_of(s: &str) -> (r: Vec<String>)
    ensures
        views(r@) == words(s@),
{
    let cs = chars_of(s);
    let bounds = field_bounds(&cs, true);
    let ghost ps = fields(cs@, white_sep());
    let mut out: Vec<String> = Vec::new();
    let mut k: usize = 0;
    while k < bounds.len()
        invariant
            k <= bounds@.len(),
            spans(cs@, bounds@) == ps,
            ps == fields(cs@, sep_of(true)),
            forall|m: int| #![trigger bounds@[m]] 0 <= m < bounds@.len() ==> bounds@[m].0
                <= bounds@[m].1 <= cs@.len(),
            views(out@) == keep_nonempty(ps.take(k as int)),
        decreases bounds@.len() - k,
    {
        let (a, b) = bounds[k];
        proof {
            assert(ps[k as int] == cs@.subrange(a as int, b as int));
            assert(ps.take(k + 1).drop_last() =~= ps.take(k as int));
            assert(ps.take(k + 1).last() == ps[k as int]);
        }
        if a < b {
            let word = string_of(slice_subrange(cs.as_slice(), a, b));
            let ghost prev = out@;
            out.push(word);
            proof {
                assert(views(out@) =~= views(prev).push(word@));
            }
        }
        k = k + 1;
    }
    proof {
        assert(ps.take(k as int) =~= ps);
    }
    out
}

pub open spec fn is_digit(c: char, radix: int) -> bool {
    '0' as int <= c as int && (c as int) < '0' as int + radix
}

pub open spec fn all_digits(s: Seq<char>, radix: int) -> bool {
    forall|i: int| 0 <= i < s.len() ==> is_digit(#[trigger] s[i], radix)
}

/// The value of a string of digits in the given radix, most significant first.
pub open spec fn digits_value(s: Seq<char>, radix: int) -> int
    decreases s.len(),
{
    if s.len() == 0 {
        0
    } else {
        digits_value(s.drop_last(), radix) * radix + (s.last() as int - '0' as int)
    }
}

/// The number of sign characters that lead a decimal literal: none or one.
pub open spec fn sign_len(s: Seq<char>) -> int {
    if s.len() > 0 && (s[0] == '+' || s[0] == '-') {
        1
    } else {
        0
    }
}

/// The value of a decimal literal with an optional leading `+` or `-`.
pub open spec fn decimal_value(s: Seq<char>) -> int {
    let m = digits_value(s.skip(sign_len(s)), 10);
    if s.len() > 0 && s[0] == '-' {
        -m
    } else {
        m
    }
}

/// A decimal literal of an `i32`: an optional sign, at least one digit, and a
/// value within the range of the type.
pub open spec fn is_i32_text(s: Seq<char>) -> bool {
    &&& s.skip(sign_len(s)).len() > 0
    &&& all_digits(s.skip(sign_len(s)), 10)
    &&& i32::MIN <= decimal_value(s) <= i32::MAX
}

/// A non-empty string of binary digits whose value fits an `i32`.
pub open spec fn is_binary_i32_text(s: Seq<char>) -> bool {
    &&& s.len() > 0
    &&& all_digits(s, 2)
    &&& digits_value(s, 2) <= i32::MAX
}

/// The value of a prefix of a digit string never exceeds that of the whole.
proof fn lemma_prefix_value_le(s: Seq<char>, radix: int, i: int)
    requires
        2 <= radix,
        all_digits(s, radix),
        0 <= i <= s.len(),
    ensures
        0 <= digits_value(s.take(i), radix) <= digits_value(s, radix),
    decreases s.len(),
{
    if s.len() > 0 {
        let t = s.drop_last();
        assert(all_digits(t, radix)) by {
            assert forall|j: int| 0 <= j < t.len() implies is_digit(#[trigger] t[j], radix) by {
                assert(t[j] == s[j]);
            }
        }
        assert(is_digit(s[s.len() - 1], radix));
        if i == s.len() {
            assert(s.take(i) =~= s);
            lemma_prefix_value_le(t, radix, 0);
        } else {
            assert(t.take(i) =~= s.take(i));
            lemma_prefix_value_le(t, radix, i);
        }
        assert(0 <= digits_value(t, radix)) by {
            lemma_prefix_value_le(t, radix, t.len() as int);
            assert(t.take(t.len() as int) =~= t);
        }
        assert(digits_value(t, radix) <= digits_value(t, radix) * radix) by (nonlinear_arith)
            requires
                0 <= digits_value(t, radix),
                2 <= radix,
        ;
    } else {
        assert(s.take(i) =~= s);
    }
}

/// Reads the digits of `cs[from..]`; `None` where one is not a digit of the
/// radix or where the value exceeds `2^31`.
fn read_digits(cs: &Vec<char>, from: usize, radix: u32) -> (r: Option<u32>)
    requires
        from <= cs@.len(),
        2 <= radix <= 10,
    ensures
        r == (if all_digits(cs@.skip(from as int), radix as int) && digits_value(
            cs@.skip(from as int),
            radix as int,
        ) <= 0x8000_0000 {
            Some(digits_value(cs@.skip(from as int), radix as int) as u32)
        } else {
            None::<u32>
        }),
{
    let ghost m = cs@.skip(from as int);
    let mut acc: u32 = 0;
    let mut i: usize = from;
    proof {
        assert(m.take(0) =~= Seq::<char>::empty());
    }
    while i < cs.len()
        invariant
            from <= i <= cs@.len(),
            2 <= radix <= 10,
            m == cs@.skip(from as int),
            all_digits(m.take(i - from), radix as int),
            acc as int == digits_value(m.take(i - from), radix as int),
            acc <= 0x8000_0000,
        decreases cs@.len() - i,
    {
        let c = cs[i];
        assert(m[i - from] == c);
        if !('0' <= c && c <= '9') {
            assert(!all_digits(m, radix as int));
            return None;
        }
        let d: u32 = (c as u32) - ('0' as u32);
        if d >= radix {
            assert(!all_digits(m, radix as int));
            return None;
        }
        proof {
            assert(m.take(i - from + 1).drop_last() =~= m.take(i - from));
            assert(m.take(i - from + 1).last() == c);
        }
        assert((acc as u64) * (radix as u64) <= 0x8000_0000u64 * 10) by (nonlinear_arith)
            requires
                acc <= 0x8000_0000,
                radix <= 10,
        ;
        let big: u64 = (acc as u64) * (radix as u64) + (d as u64);
        assert(all_digits(m.take(i - from + 1), radix as int)) by {
            assert forall|j: int| 0 <= j < i - from + 1 implies is_digit(
                #[trigger] m.take(i - from + 1)[j],
                radix as int,
            ) by {
                if j < i - from {
                    assert(m.take(i - from + 1)[j] == m.take(i - from)[j]);
                } else {
                    assert(m.take(i - from + 1)[j] == c);
                    assert(is_digit(c, radix as int));
                }
            }
        }
        if big > 0x8000_0000 {
            proof {
                if all_digits(m, radix as int) {
                    lemma_prefix_value_le(m, radix as int, i - from + 1);
                }
            }
            return None;
        }
        acc = big as u32;
        i = i + 1;
    }
    proof {
        assert(m.take(i - from) =~= m);
    }
    Some(acc)
}

/// Parses a decimal `i32` as `str::parse` does: an optional sign, then at
/// least one digit, with a value in range.
pub fn parse_i32(s: &str) -> (r: Option<i32>)
    ensures
        r == (if is_i32_text(s@) {
            Some(decimal_value(s@) as i32)
        } else {
            None::<i32>
        }),
        r matches Some(v) ==> v as int == decimal_value(s@),
{
    let cs = chars_of(s);
    let negative = cs.len() > 0 && cs[0] == '-';
    let from: usize = if cs.len() > 0 && (cs[0] == '+' || cs[0] == '-') {
        1
    } else {
        0
    };
    assert(from == sign_len(s@));
    if from == cs.len() {
        return None;
    }
    proof {
        if all_digits(s@.skip(from as int), 10) {
            lemma_prefix_value_le(s@.skip(from as int), 10, 0);
        }
    }
    match read_digits(&cs, from, 10) {
        None => {
            proof {
                let m = s@.skip(from as int);
                if all_digits(m, 10) {
                    assert(decimal_value(s@) < i32::MIN || decimal_value(s@) > i32::MAX);
                }
            }
            None
        },
        Some(v) => {
            if negative {
                Some((0 - (v as i64)) as i32)
            } else if v <= 0x7fff_ffff {
                Some(v as i32)
            } else {
                None
            }
        },
    }
}

/// Parses a non-empty string of binary digits whose value fits an `i32`.
pub fn parse_binary_i32(cs: &Vec<char>) -> (r: Option<i32>)
    ensures
        r == (if is_binary_i32_text(cs@) {
            Some(digits_value(cs@, 2) as i32)
        } else {
            None::<i32>
        }),
        r matches Some(v) ==> v as int == digits_value(cs@, 2),
{
    if cs.len() == 0 {
        return None;
    }
    let r = read_digits(cs, 0, 2);
    assert(cs@.skip(0) =~= cs@);
    proof {
        if all_digits(cs@, 2) {
            lemma_prefix_value_le(cs@, 2, 0);
        }
    }
    match r {
        Some(v) => {
            if v <= 0x7fff_ffff {
                Some(v as i32)
            } else {
                None
            }
        },
        None => None,
    }
}

} // verus!
