//! Counting the depth measurements that are larger than the one before.
use vstd::prelude::*;
use crate::common::{failures, successes, ChallengeData};
use crate::text::{decimal_value, is_i32_text, parse_i32};

verus! {

/// Why the depth count could not be made.
#[derive(Debug, Clone, PartialEq, Eq)]
pub enum SonarError {
    /// This many lines are not decimal `i32` numbers.
    NotNumbers(usize),
}

/// The number of adjacent pairs of `v` whose later value is strictly greater.
pub open spec fn increases(v: Seq<i32>) -> nat
    decreases v.len(),
{
    if v.len() < 2 {
        0
    } else {
        increases(v.drop_last()) + if v[v.len() - 2] < v.last() {
            1nat
        } else {
            0nat
        }
    }
}

/// A line read as a measurement.
pub open spec fn measurement(l: Seq<char>) -> Result<i32, ()> {
    if is_i32_text(l) {
        Ok(decimal_value(l) as i32)
    } else {
        Err(())
    }
}

pub open spec fn all_numbers(ls: Seq<Seq<char>>) -> bool {
    forall|i: int| 0 <= i < ls.len() ==> is_i32_text(#[trigger] ls[i])
}

/// The number of lines that are not measurements.
pub open spec fn count_bad(ls: Seq<Seq<char>>) -> nat
    decreases ls.len(),
{
    if ls.len() == 0 {
        0
    } else {
        count_bad(ls.drop_last()) + if is_i32_text(ls.last()) {
            0nat
        } else {
            1nat
        }
    }
}

pub open spec fn measurements(ls: Seq<Seq<char>>) -> Seq<i32> {
    ls.map_values(|l: Seq<char>| decimal_value(l) as i32)
}

/// The count of increases where every line is a measurement, else the number
/// of lines that are not.
pub open spec fn sonar_outcome(ls: Seq<Seq<char>>) -> Result<nat, nat> {
    if all_numbers(ls) {
        Ok(increases(measurements(ls)))
    } else {
        Err(count_bad(ls))
    }
}

/// The number of adjacent pairs of `values` whose later value is greater.
pub fn count_increases(values: &Vec<i32>) -> (r: usize)
    ensures
        r == increases(values@),
{
    let mut count: usize = 0;
    let mut i: usize = 1;
    if values.len() < 2 {
        return 0;
    }
    while i < values.len()
        invariant
            1 <= i <= values@.len(),
            count == increases(values@.take(i as int)),
            count <= i,
        decreases values@.len() - i,
    {
        proof {
            let t = values@.take(i + 1);
            assert(t.drop_last() =~= values@.take(i as int));
            assert(t[t.len() - 2] == values@[i - 1]);
        }
        if values[i - 1] < values[i] {
            count = count + 1;
        }
        i = i + 1;
    }
    assert(values@.take(i as int) =~= values@);
    count
}

proof fn lemma_measured(ls: Seq<Seq<char>>, rs: Seq<Result<i32, ()>>)
    requires
        rs.len() == ls.len(),
        forall|i: int| 0 <= i < rs.len() ==> #[trigger] rs[i] == measurement(ls[i]),
    ensures
        failures(rs).len() == count_bad(ls),
        all_numbers(ls) ==> successes(rs) == measurements(ls),
        all_numbers(ls) <==> count_bad(ls) == 0,
    decreases ls.len(),
{
    if ls.len() > 0 {
        let n = ls.len() - 1;
        assert forall|i: int| 0 <= i < rs.drop_last().len() implies #[trigger] rs.drop_last()[i]
            == measurement(ls.drop_last()[i]) by {
            assert(rs.drop_last()[i] == rs[i]);
        }
        lemma_measured(ls.drop_last(), rs.drop_last());
        assert(rs.last() == measurement(ls[n]));
        if all_numbers(ls) {
            assert(is_i32_text(ls[n]));
            assert(all_numbers(ls.drop_last())) by {
                assert forall|i: int| 0 <= i < ls.drop_last().len() implies is_i32_text(
                    #[trigger] ls.drop_last()[i],
                ) by {
                    assert(ls.drop_last()[i] == ls[i]);
                }
            }
            assert(measurements(ls) =~= measurements(ls.drop_last()).push(
                decimal_value(ls[n]) as i32,
            ));
        }
        if count_bad(ls) == 0 {
            assert(all_numbers(ls)) by {
                assert forall|i: int| 0 <= i < ls.len() implies is_i32_text(#[trigger] ls[i]) by {
                    if i < n {
                        assert(ls.drop_last()[i] == ls[i]);
                    }
                }
            }
        }
    }
}

/// Reads one line as a measurement.
fn read_measurement(v: &String) -> (r: Result<i32, ()>)
    ensures
        r == measurement(v@),
{
    match parse_i32(v.as_str()) {
        Some(x) => Ok(x),
        None => Err(()),
    }
}

/// Counts the measurements, one per line, that are larger than the one
/// before; fails with the number of lines that are not decimal `i32` numbers
/// if there is any.
pub fn day_one_challenge(data: &ChallengeData) -> (r: Result<usize, SonarError>)
    ensures
        match r {
            Ok(n) => sonar_outcome(data.line_seq()) == Ok::<nat, nat>(n as nat),
            Err(SonarError::NotNumbers(k)) => sonar_outcome(data.line_seq()) == Err::<nat, nat>(
                k as nat,
            ),
        },
{
    let (values, errors) = data.process(read_measurement);
    let ghost ls = data.line_seq();
    proof {
        let rs = choose|rs: Seq<Result<i32, ()>>|
            {
                &&& rs.len() == data.entries().len()
                &&& forall|i: int|
                    0 <= i < rs.len() ==> #[trigger] rs[i] == measurement(data.entries()[i]@)
                &&& values@ == successes(rs)
                &&& errors@ == failures(rs)
            };
        lemma_measured(ls, rs);
    }
    if errors.len() != 0 {
        return Err(SonarError::NotNumbers(errors.len()));
    }
    Ok(count_increases(&values))
}

/// Where any line is not a number, the count fails and gives no number.
pub proof fn lemma_non_numeric_line_fails(ls: Seq<Seq<char>>, i: int)
    requires
        0 <= i < ls.len(),
        !is_i32_text(ls[i]),
    ensures
        sonar_outcome(ls) is Err,
{
}

} // verus!
