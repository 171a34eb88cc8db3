//! The binary diagnostic report: fixed-width binary entries, and the gamma and
//! epsilon rates voted column by column.
use vstd::prelude::*;
use vstd::arithmetic::power2::{lemma2_to64, lemma_pow2_unfold, pow2};
use vstd::string::StrSliceExecFns;
use crate::common::ChallengeData;
use crate::text::{all_digits, chars_of, digits_value, is_binary_i32_text, parse_binary_i32, views};

verus! {

/// Why a diagnostic report could not be made or read.
#[derive(Debug, Clone, PartialEq, Eq)]
pub enum DiagnosticError {
    /// The line (held here) is not a binary number that fits an `i32`.
    NotBinary(String),
    /// There are no entries.
    NoEntries,
    /// An entry (held here) is not as wide as the first one.
    WidthMismatch { expected: usize, entry: String },
    /// A rate does not fit an `i32`.
    TooWide,
}

/// One line of the report: a binary string and its value.
#[derive(Debug)]
pub struct DiagnosticEntry {
    raw: String,
    value: i32,
}

/// The bits of one column of the report, handed out one entry at a time.
pub struct DiagnosticFeed {
    bits: Vec<Option<i32>>,
    next: usize,
}

/// Entries of equal width, at least one.
#[derive(Debug)]
pub struct DiagnosticReport {
    width: usize,
    entries: Vec<DiagnosticEntry>,
}

/// What the rates and their product come to.
#[derive(Debug, Clone, Copy, PartialEq, Eq)]
pub struct PowerReport {
    pub gamma: i32,
    pub epsilon: i32,
    pub consumption: i64,
}

/// A column's bit of one row: 1 for `'1'`, else 0.
pub open spec fn bit_at(row: Seq<char>, c: int) -> i32 {
    if row[c] == '1' {
        1
    } else {
        0
    }
}

/// What each row holds in column `c`: its bit, or `None` where the row is
/// too narrow.
pub open spec fn column_slots(rows: Seq<Seq<char>>, c: int) -> Seq<Option<i32>> {
    rows.map_values(
        |row: Seq<char>|
            if 0 <= c < row.len() {
                Some(bit_at(row, c))
            } else {
                None
            },
    )
}

/// The sum of the leading slots up to the first `None`.
pub open spec fn sum_slots(s: Seq<Option<i32>>) -> int
    decreases s.len(),
{
    if s.len() == 0 {
        0
    } else {
        match s[0] {
            Some(b) => b + sum_slots(s.drop_first()),
            None => 0,
        }
    }
}

/// The number of rows with a `'1'` in column `c` (for rows that are all wide
/// enough).
pub open spec fn column_ones(rows: Seq<Seq<char>>, c: int) -> int {
    sum_slots(column_slots(rows, c))
}

/// Gamma's bits: `'1'` where at least half the rows (rounded down) have a
/// `'1'`, so that a tie gives `'1'`.
pub open spec fn gamma_bits(rows: Seq<Seq<char>>, width: nat) -> Seq<char> {
    Seq::new(
        width,
        |c: int|
            if column_ones(rows, c) >= rows.len() as int / 2 {
                '1'
            } else {
                '0'
            },
    )
}

/// Epsilon's bits: `'1'` where fewer than half the rows (rounded down) have a
/// `'1'`, so that a tie gives `'0'`.
pub open spec fn epsilon_bits(rows: Seq<Seq<char>>, width: nat) -> Seq<char> {
    Seq::new(
        width,
        |c: int|
            if column_ones(rows, c) < rows.len() as int / 2 {
                '1'
            } else {
                '0'
            },
    )
}

/// A rate's value where it fits an `i32`.
pub open spec fn rate(bits: Seq<char>) -> Result<i32, DiagnosticError> {
    if digits_value(bits, 2) <= i32::MAX {
        Ok(digits_value(bits, 2) as i32)
    } else {
        Err(DiagnosticError::TooWide)
    }
}

impl DiagnosticEntry {
    /// The binary string.
    pub closed spec fn bits(&self) -> Seq<char> {
        self.raw@
    }

    pub closed spec fn spec_value(&self) -> i32 {
        self.value
    }

    pub closed spec fn wf(&self) -> bool {
        &&& is_binary_i32_text(self.raw@)
        &&& self.value == digits_value(self.raw@, 2)
    }

    /// The width of the entry.
    pub fn len(&self) -> (r: usize)
        requires
            self.wf(),
        ensures
            r == self.bits().len(),
    {
        self.raw.as_str().unicode_len()
    }

    /// The bit at `position`, counted from the most significant; `None` past
    /// the end.
    pub fn at(&self, position: usize) -> (r: Option<i32>)
        requires
            self.wf(),
        ensures
            r == (if position < self.bits().len() {
                Some(bit_at(self.bits(), position as int))
            } else {
                None::<i32>
            }),
    {
        if position < self.len() {
            if self.raw.as_str().get_char(position) == '1' {
                Some(1)
            } else {
                Some(0)
            }
        } else {
            None
        }
    }

    /// The value of the binary string.
    pub fn value(&self) -> (r: i32)
        requires
            self.wf(),
        ensures
            r == self.spec_value(),
            r == digits_value(self.bits(), 2),
    {
        self.value
    }

    /// Reads a line as a non-empty string of `'0'` and `'1'` whose value fits
    /// an `i32`.
    pub fn try_from(value: &String) -> (r: Result<Self, DiagnosticError>)
        ensures
            match r {
                Ok(e) => is_binary_i32_text(value@) && e.wf() && e.bits() == value@,
                Err(e) => !is_binary_i32_text(value@) && (e matches DiagnosticError::NotBinary(s)
                    && s@ == value@),
            },
    {
        let cs = chars_of(value.as_str());
        match parse_binary_i32(&cs) {
            Some(v) => Ok(DiagnosticEntry { raw: value.clone(), value: v }),
            None => Err(DiagnosticError::NotBinary(value.clone())),
        }
    }
}

impl DiagnosticFeed {
    /// What is yet to be handed out: one slot per entry left.
    pub closed spec fn remaining(&self) -> Seq<Option<i32>> {
        self.bits@.skip(self.next as int)
    }

    pub closed spec fn wf(&self) -> bool {
        self.next <= self.bits@.len()
    }

    /// For each entry in order, its bit in `column`, or `None` where the entry
    /// is too narrow.
    pub fn new(entries: &Vec<DiagnosticEntry>, column: usize) -> (r: Self)
        requires
            forall|i: int| 0 <= i < entries@.len() ==> (#[trigger] entries@[i]).wf(),
        ensures
            r.wf(),
            r.remaining() == column_slots(
                entries@.map_values(|e: DiagnosticEntry| e.bits()),
                column as int,
            ),
    {
        let ghost rows = entries@.map_values(|e: DiagnosticEntry| e.bits());
        let mut bits: Vec<Option<i32>> = Vec::new();
        let mut i: usize = 0;
        while i < entries.len()
            invariant
                i <= entries@.len(),
                forall|j: int| 0 <= j < entries@.len() ==> (#[trigger] entries@[j]).wf(),
                rows == entries@.map_values(|e: DiagnosticEntry| e.bits()),
                bits@ == column_slots(rows, column as int).take(i as int),
            decreases entries@.len() - i,
        {
            bits.push(entries[i].at(column));
            proof {
                assert(rows[i as int] == entries@[i as int].bits());
                assert(bits@ =~= column_slots(rows, column as int).take(i + 1));
            }
            i = i + 1;
        }
        assert(column_slots(rows, column as int).take(i as int) =~= column_slots(
            rows,
            column as int,
        ));
        assert(bits@.skip(0) =~= bits@);
        DiagnosticFeed { bits, next: 0 }
    }

    /// Hands out the slot of the next entry; `None` once every entry is past.
    pub fn next(&mut self) -> (r: Option<i32>)
        requires
            old(self).wf(),
        ensures
            final(self).wf(),
            old(self).remaining().len() == 0 ==> r is None && final(self).remaining()
                == old(self).remaining(),
            old(self).remaining().len() > 0 ==> r == old(self).remaining()[0]
                && final(self).remaining() == old(self).remaining().drop_first(),
    {
        if self.next < self.bits.len() {
            let b = self.bits[self.next];
            self.next = self.next + 1;
            assert(self.bits@.skip(self.next as int) =~= old(self).remaining().drop_first());
            b
        } else {
            None
        }
    }

    /// How many entries are left: exactly.
    pub fn size_hint(&self) -> (r: (usize, Option<usize>))
        requires
            self.wf(),
        ensures
            r.0 == self.remaining().len(),
            r.1 == Some(r.0),
    {
        let n = self.bits.len() - self.next;
        (n, Some(n))
    }

    /// Adds up the bits handed out until the first `None` or the end.
    pub fn sum(&mut self) -> (r: usize)
        requires
            old(self).wf(),
            forall|i: int|
                0 <= i < old(self).remaining().len() ==> (#[trigger] old(self).remaining()[i] matches Some(
                    b,
                ) ==> 0 <= b <= 1),
        ensures
            r == sum_slots(old(self).remaining()),
    {
        let ghost all = self.remaining();
        let mut total: usize = 0;
        let (n, _) = self.size_hint();
        let mut k: usize = 0;
        assert(all.skip(0) =~= all);
        while k < n
            invariant
                self.wf(),
                k <= n == all.len(),
                all == old(self).remaining(),
                self.remaining() == all.skip(k as int),
                total <= k,
                total + sum_slots(all.skip(k as int)) == sum_slots(all),
                forall|i: int|
                    0 <= i < all.len() ==> (#[trigger] all[i] matches Some(b) ==> 0 <= b <= 1),
            decreases n - k,
        {
            let b = self.next();
            assert(all.skip(k as int)[0] == all[k as int]);
            assert(all.skip(k as int).drop_first() =~= all.skip(k + 1));
            match b {
                Some(x) => {
                    total = total + x as usize;
                },
                None => {
                    assert(all.skip(k as int).len() > 0 && all.skip(k as int)[0] is None);
                    assert(sum_slots(all.skip(k as int)) == 0);
                    return total;
                },
            }
            k = k + 1;
        }
        total
    }
}

impl DiagnosticReport {
    /// The binary strings of the entries, in order.
    pub closed spec fn rows(&self) -> Seq<Seq<char>> {
        self.entries@.map_values(|e: DiagnosticEntry| e.bits())
    }

    pub closed spec fn spec_width(&self) -> nat {
        self.width as nat
    }

    /// At least one entry; all well formed and of the same width.
    pub closed spec fn wf(&self) -> bool {
        &&& self.entries@.len() > 0
        &&& forall|i: int| 0 <= i < self.entries@.len() ==> (#[trigger] self.entries@[i]).wf()
        &&& forall|i: int| 0 <= i < self.entries@.len() ==> (#[trigger] self.entries@[i]).bits().len() == self.width
    }

    pub fn width(&self) -> (r: usize)
        ensures
            r == self.spec_width(),
    {
        self.width
    }

    /// For each entry in order, its bit in `column`, or `None` past the
    /// width.
    pub fn feed(&self, column: usize) -> (r: DiagnosticFeed)
        requires
            self.wf(),
        ensures
            r.wf(),
            r.remaining() == column_slots(self.rows(), column as int),
    {
        DiagnosticFeed::new(&self.entries, column)
    }

    /// The number of entries with a `'1'` in `column`.
    fn ones(&self, column: usize) -> (r: usize)
        requires
            self.wf(),
            column < self.spec_width(),
        ensures
            r == column_ones(self.rows(), column as int),
    {
        let mut f = self.feed(column);
        proof {
            assert forall|i: int| 0 <= i < f.remaining().len() implies (#[trigger] f.remaining()[i] matches Some(
                b,
            ) ==> 0 <= b <= 1) by {
                assert(self.rows()[i].len() == self.spec_width()) by {
                    assert(self.entries@[i].bits().len() == self.width);
                }
                assert(f.remaining()[i] == Some(bit_at(self.rows()[i], column as int)));
            }
        }
        f.sum()
    }

    /// Gamma, read in binary; where at least half the entries (rounded down)
    /// have a `'1'` in a column, so has gamma.
    pub fn gamma(&self) -> (r: Result<i32, DiagnosticError>)
        requires
            self.wf(),
        ensures
            r == rate(gamma_bits(self.rows(), self.spec_width())),
    {
        self.rate_of(true)
    }

    /// Epsilon, read in binary; where fewer than half the entries (rounded
    /// down) have a `'1'` in a column, epsilon has a `'1'`.
    pub fn epsilon(&self) -> (r: Result<i32, DiagnosticError>)
        requires
            self.wf(),
        ensures
            r == rate(epsilon_bits(self.rows(), self.spec_width())),
    {
        self.rate_of(false)
    }

    fn rate_of(&self, majority: bool) -> (r: Result<i32, DiagnosticError>)
        requires
            self.wf(),
        ensures
            r == rate(
                if majority {
                    gamma_bits(self.rows(), self.spec_width())
                } else {
                    epsilon_bits(self.rows(), self.spec_width())
                },
            ),
    {
        let ghost want = if majority {
            gamma_bits(self.rows(), self.spec_width())
        } else {
            epsilon_bits(self.rows(), self.spec_width())
        };
        let threshold = self.entries.len() / 2;
        let mut bits: Vec<char> = Vec::new();
        let mut c: usize = 0;
        while c < self.width
            invariant
                self.wf(),
                c <= self.width,
                threshold == self.rows().len() / 2,
                want == (if majority {
                    gamma_bits(self.rows(), self.spec_width())
                } else {
                    epsilon_bits(self.rows(), self.spec_width())
                }),
                bits@ == want.take(c as int),
            decreases self.width - c,
        {
            let ones = self.ones(c);
            let one = if majority {
                ones >= threshold
            } else {
                ones < threshold
            };
            bits.push(if one {
                '1'
            } else {
                '0'
            });
            assert(bits@ =~= want.take(c + 1));
            c = c + 1;
        }
        assert(want.take(c as int) =~= want);
        proof {
            assert(want.len() > 0) by {
                assert(self.entries@[0].wf());
            }
            assert(all_digits(want, 2));
        }
        match parse_binary_i32(&bits) {
            Some(v) => Ok(v),
            None => Err(DiagnosticError::TooWide),
        }
    }

    /// Reads every line as an entry and checks that all have the width of the
    /// first; the first line that is no entry is reported before any width.
    pub fn try_from(value: &[String]) -> (r: Result<Self, DiagnosticError>)
        ensures
            match r {
                Ok(rep) => {
                    &&& rep.wf()
                    &&& all_entries(views(value@))
                    &&& same_width(views(value@))
                    &&& value@.len() > 0
                    &&& rep.rows() == views(value@)
                    &&& rep.spec_width() == value@[0]@.len()
                },
                Err(e) => report_error(views(value@), e),
            },
    {
        let ghost ls = views(value@);
        let mut entries: Vec<DiagnosticEntry> = Vec::new();
        let mut i: usize = 0;
        while i < value.len()
            invariant
                i <= value@.len(),
                ls == views(value@),
                entries@.len() == i,
                forall|j: int| 0 <= j < i ==> is_binary_i32_text(#[trigger] ls[j]),
                forall|j: int| 0 <= j < i ==> (#[trigger] entries@[j]).wf(),
                forall|j: int| 0 <= j < i ==> (#[trigger] entries@[j]).bits() == ls[j],
            decreases value@.len() - i,
        {
            match DiagnosticEntry::try_from(&value[i]) {
                Ok(e) => entries.push(e),
                Err(e) => {
                    assert(ls[i as int] == value@[i as int]@);
                    return Err(e);
                },
            }
            i = i + 1;
        }
        if entries.len() == 0 {
            return Err(DiagnosticError::NoEntries);
        }
        let width = entries[0].len();
        let mut k: usize = 0;
        while k < entries.len()
            invariant
                k <= entries@.len() == ls.len() == value@.len(),
                ls == views(value@),
                width == ls[0].len(),
                forall|j: int| 0 <= j < ls.len() ==> is_binary_i32_text(#[trigger] ls[j]),
                forall|j: int| 0 <= j < entries@.len() ==> (#[trigger] entries@[j]).wf(),
                forall|j: int| 0 <= j < entries@.len() ==> (#[trigger] entries@[j]).bits() == ls[j],
                forall|j: int| 0 <= j < k ==> (#[trigger] ls[j]).len() == width,
            decreases entries@.len() - k,
        {
            if entries[k].len() != width {
                let entry = entries[k].raw.clone();
                proof {
                    assert(entry@ == ls[k as int]);
                    assert(ls[k as int].len() != width);
                    assert(all_entries(ls));
                    assert(forall|j: int| 0 <= j < k ==> (#[trigger] ls[j]).len() == width);
                    let e = DiagnosticError::WidthMismatch { expected: width, entry };
                    assert(report_error(ls, e));
                }
                return Err(DiagnosticError::WidthMismatch { expected: width, entry });
            }
            k = k + 1;
        }
        let rep = DiagnosticReport { width, entries };
        assert(rep.rows() =~= ls);
        Ok(rep)
    }
}

/// Every line is as wide as the first.
pub open spec fn same_width(ls: Seq<Seq<char>>) -> bool {
    forall|i: int| 0 <= i < ls.len() ==> (#[trigger] ls[i]).len() == ls[0].len()
}

pub open spec fn all_entries(ls: Seq<Seq<char>>) -> bool {
    forall|i: int| 0 <= i < ls.len() ==> is_binary_i32_text(#[trigger] ls[i])
}

/// `e` is why the lines make no report: the first line that is no entry; or
/// no lines; or the first entry whose width differs from the first one's.
pub open spec fn report_error(ls: Seq<Seq<char>>, e: DiagnosticError) -> bool {
    match e {
        DiagnosticError::NotBinary(s) => exists|i: int|
            0 <= i < ls.len() && !is_binary_i32_text(ls[i]) && s@ == ls[i] && (forall|j: int|
                0 <= j < i ==> is_binary_i32_text(#[trigger] ls[j])),
        DiagnosticError::NoEntries => ls.len() == 0,
        DiagnosticError::WidthMismatch { expected, entry } => {
            &&& all_entries(ls)
            &&& ls.len() > 0
            &&& expected == ls[0].len()
            &&& exists|i: int|
                0 <= i < ls.len() && ls[i].len() != expected && entry@ == ls[i] && (forall|j: int|
                    0 <= j < i ==> (#[trigger] ls[j]).len() == expected)
        },
        DiagnosticError::TooWide => false,
    }
}

/// What the lines come to: the two rates and their product, where the lines
/// make a report and both rates fit an `i32`.
pub open spec fn power_outcome(ls: Seq<Seq<char>>, r: Result<PowerReport, DiagnosticError>) -> bool {
    let good = all_entries(ls) && ls.len() > 0 && same_width(ls);
    let g = rate(gamma_bits(ls, ls[0].len()));
    let e = rate(epsilon_bits(ls, ls[0].len()));
    match r {
        Ok(p) => good && g == Ok::<i32, DiagnosticError>(p.gamma) && e == Ok::<i32, DiagnosticError>(
            p.epsilon,
        ) && p.consumption == p.gamma * p.epsilon,
        Err(DiagnosticError::TooWide) => good && (g is Err || e is Err),
        Err(err) => !good && report_error(ls, err),
    }
}

/// Reads the lines as a report and gives gamma, epsilon and their product.
pub fn day_three_challenge(data: &ChallengeData) -> (r: Result<PowerReport, DiagnosticError>)
    ensures
        power_outcome(data.line_seq(), r),
{
    let report = match DiagnosticReport::try_from(data.lines()) {
        Ok(rep) => rep,
        Err(e) => {
            return Err(e);
        },
    };
    let gamma = match report.gamma() {
        Ok(g) => g,
        Err(e) => {
            return Err(e);
        },
    };
    let epsilon = match report.epsilon() {
        Ok(v) => v,
        Err(e) => {
            return Err(e);
        },
    };
    assert(-0x4000_0000_0000_0000 <= gamma * epsilon <= 0x4000_0000_0000_0000) by (nonlinear_arith)
        requires
            -0x8000_0000 <= gamma <= 0x7fff_ffff,
            -0x8000_0000 <= epsilon <= 0x7fff_ffff,
    ;
    let consumption = gamma as i64 * epsilon as i64;
    Ok(PowerReport { gamma, epsilon, consumption })
}

/// Two strings of binary digits with opposite bits in every place add up to
/// `2^n - 1`.
proof fn lemma_opposite_bits_sum(s: Seq<char>, t: Seq<char>)
    requires
        s.len() == t.len(),
        forall|i: int|
            0 <= i < s.len() ==> (s[i] == '0' && t[i] == '1') || (s[i] == '1' && t[i] == '0'),
    ensures
        digits_value(s, 2) + digits_value(t, 2) == pow2(s.len()) - 1,
    decreases s.len(),
{
    if s.len() == 0 {
        lemma2_to64();
    } else {
        let n = (s.len() - 1) as int;
        assert forall|i: int| 0 <= i < s.drop_last().len() implies (s.drop_last()[i] == '0'
            && t.drop_last()[i] == '1') || (s.drop_last()[i] == '1' && t.drop_last()[i] == '0') by {
            assert(s.drop_last()[i] == s[i] && t.drop_last()[i] == t[i]);
        }
        lemma_opposite_bits_sum(s.drop_last(), t.drop_last());
        lemma_pow2_unfold(s.len());
        assert((s[n] == '0' && t[n] == '1') || (s[n] == '1' && t[n] == '0'));
    }
}

/// Gamma and epsilon have opposite bits in every column, ties included, so
/// that read in binary they add up to `2^width - 1`: gamma XOR epsilon has all
/// `width` bits set.
pub proof fn lemma_rates_complement(rows: Seq<Seq<char>>, width: nat)
    ensures
        forall|c: int|
            0 <= c < width ==> #[trigger] gamma_bits(rows, width)[c] != epsilon_bits(rows, width)[c],
        digits_value(gamma_bits(rows, width), 2) + digits_value(epsilon_bits(rows, width), 2)
            == pow2(width) - 1,
{
    lemma_opposite_bits_sum(gamma_bits(rows, width), epsilon_bits(rows, width));
}

/// Lines that are all binary entries but not all of one width make no
/// report: the outcome is a width mismatch, with neither rate.
pub proof fn lemma_mixed_widths_rejected(ls: Seq<Seq<char>>, i: int)
    requires
        all_entries(ls),
        0 <= i < ls.len(),
        ls[i].len() != ls[0].len(),
    ensures
        forall|r: Result<PowerReport, DiagnosticError>|
            power_outcome(ls, r) ==> r matches Err(DiagnosticError::WidthMismatch { .. }),
{
    assert(!same_width(ls));
}

} // verus!
