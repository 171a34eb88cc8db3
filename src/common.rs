//! The input of a challenge (its non-blank lines) and the per-line
//! processing that the challenges share.
use vstd::prelude::*;
use crate::text::{fields, is_blank, keep_nonblank, newline_sep, nonblank_lines, nonblank_lines_of, strip_cr, views};

verus! {

/// Why the input of a challenge could not be had.
#[derive(Debug, Clone, PartialEq, Eq)]
pub enum ChallengeDataError {
    /// The input file could not be read.
    LoadError,
    /// The arguments did not name an input file.
    ArgumentError(String),
}

/// One challenge, runnable on loaded input.
pub trait Challenge {
    type Answer;
    type Failure;

    fn run(&self, data: &ChallengeData) -> Result<Self::Answer, Self::Failure>;
}

/// The input of a challenge: where it came from, and its non-blank lines in
/// order.
pub struct ChallengeData {
    input_file: String,
    lines: Vec<String>,
}

/// What succeeded, in order.
pub open spec fn successes<T, E>(rs: Seq<Result<T, E>>) -> Seq<T>
    decreases rs.len(),
{
    if rs.len() == 0 {
        Seq::empty()
    } else {
        let k = successes(rs.drop_last());
        match rs.last() {
            Ok(v) => k.push(v),
            Err(_) => k,
        }
    }
}

/// What failed, in order.
pub open spec fn failures<T, E>(rs: Seq<Result<T, E>>) -> Seq<E>
    decreases rs.len(),
{
    if rs.len() == 0 {
        Seq::empty()
    } else {
        let k = failures(rs.drop_last());
        match rs.last() {
            Ok(_) => k,
            Err(e) => k.push(e),
        }
    }
}

impl ChallengeData {
    /// The lines, as held.
    pub closed spec fn entries(&self) -> Seq<String> {
        self.lines@
    }

    /// The text of the lines.
    pub open spec fn line_seq(&self) -> Seq<Seq<char>> {
        views(self.entries())
    }

    pub closed spec fn source(&self) -> Seq<char> {
        self.input_file@
    }

    /// The input read from `input_file`, whose text is `contents`: its lines,
    /// without line endings, that are not blank.
    pub fn from_contents(input_file: String, contents: &str) -> (r: Self)
        ensures
            r.line_seq() == nonblank_lines(contents@),
            r.source() == input_file@,
    {
        let lines = nonblank_lines_of(contents);
        ChallengeData { input_file, lines }
    }

    /// Where the input came from.
    pub fn input_file(&self) -> (r: &String)
        ensures
            r@ == self.source(),
    {
        &self.input_file
    }

    pub fn lines(&self) -> (r: &[String])
        ensures
            r@ == self.entries(),
    {
        self.lines.as_slice()
    }

    /// Applies `processor` to every line in order, and returns what succeeded
    /// and what failed, each in the order of the lines.
    pub fn process<T, E, F: Fn(&String) -> Result<T, E>>(&self, processor: F) -> (r: (
        Vec<T>,
        Vec<E>,
    ))
        requires
            forall|i: int| 0 <= i < self.entries().len() ==> processor.requires(
                (&#[trigger] self.entries()[i],),
            ),
        ensures
            exists|rs: Seq<Result<T, E>>|
                {
                    &&& rs.len() == self.entries().len()
                    &&& forall|i: int|
                        0 <= i < rs.len() ==> processor.ensures(
                            (&#[trigger] self.entries()[i],),
                            rs[i],
                        )
                    &&& r.0@ == successes(rs)
                    &&& r.1@ == failures(rs)
                },
    {
        let mut values: Vec<T> = Vec::new();
        let mut errors: Vec<E> = Vec::new();
        let ghost mut rs: Seq<Result<T, E>> = Seq::empty();
        let mut i: usize = 0;
        while i < self.lines.len()
            invariant
                i <= self.lines@.len(),
                forall|j: int| 0 <= j < self.entries().len() ==> processor.requires(
                    (&#[trigger] self.entries()[j],),
                ),
                rs.len() == i,
                forall|j: int|
                    0 <= j < rs.len() ==> processor.ensures((&#[trigger] self.entries()[j],), rs[j]),
                values@ == successes(rs),
                errors@ == failures(rs),
            decreases self.lines@.len() - i,
        {
            let x = processor(&self.lines[i]);
            let ghost prev = rs;
            proof {
                rs = rs.push(x);
                assert(rs.drop_last() =~= prev);
            }
            match x {
                Ok(v) => values.push(v),
                Err(e) => errors.push(e),
            }
            i = i + 1;
        }
        (values, errors)
    }
}

/// Every field of a blank text is blank.
proof fn lemma_fields_of_blank(s: Seq<char>, sep: spec_fn(char) -> bool)
    requires
        is_blank(s),
    ensures
        forall|k: int| 0 <= k < fields(s, sep).len() ==> is_blank(#[trigger] fields(s, sep)[k]),
        fields(s, sep).len() >= 1,
    decreases s.len(),
{
    if s.len() > 0 {
        let t = s.drop_last();
        assert(is_blank(t)) by {
            assert forall|i: int| 0 <= i < t.len() implies crate::text::white_space(#[trigger] t[i]) by {
                assert(t[i] == s[i]);
            }
        }
        lemma_fields_of_blank(t, sep);
        let p = fields(t, sep);
        assert(crate::text::white_space(s[s.len() - 1]));
        if !sep(s.last()) {
            let l = p.last().push(s.last());
            assert(is_blank(p[p.len() - 1]));
            assert(is_blank(l)) by {
                assert forall|i: int| 0 <= i < l.len() implies crate::text::white_space(#[trigger] l[i]) by {
                    if i < l.len() - 1 {
                        assert(l[i] == p.last()[i]);
                    }
                }
            }
            let q = p.drop_last().push(l);
            assert forall|k: int| 0 <= k < q.len() implies is_blank(#[trigger] q[k]) by {
                if k < q.len() - 1 {
                    assert(q[k] == p[k]);
                }
            }
        } else {
            let q = p.push(Seq::empty());
            assert forall|k: int| 0 <= k < q.len() implies is_blank(#[trigger] q[k]) by {
                if k < q.len() - 1 {
                    assert(q[k] == p[k]);
                } else {
                    assert(q[k] =~= Seq::<char>::empty());
                }
            }
        }
    }
}

/// Only blank pieces leave nothing.
proof fn lemma_keep_nonblank_of_blanks(ls: Seq<Seq<char>>)
    requires
        forall|k: int| 0 <= k < ls.len() ==> is_blank(#[trigger] ls[k]),
    ensures
        keep_nonblank(ls).len() == 0,
    decreases ls.len(),
{
    if ls.len() > 0 {
        lemma_keep_nonblank_of_blanks(ls.drop_last());
        assert(is_blank(ls[ls.len() - 1]));
    }
}

/// Loading a text that holds nothing but whitespace and line endings gives no
/// lines, and processing no lines gives neither successes nor failures: no
/// data is told apart from bad data.
pub proof fn lemma_blank_input_is_empty<T, E>(contents: Seq<char>, rs: Seq<Result<T, E>>)
    requires
        is_blank(contents),
        rs.len() == nonblank_lines(contents).len(),
    ensures
        nonblank_lines(contents).len() == 0,
        successes(rs).len() == 0,
        failures(rs).len() == 0,
{
    let ps = fields(contents, newline_sep());
    lemma_fields_of_blank(contents, newline_sep());
    let stripped = ps.map_values(|l: Seq<char>| strip_cr(l));
    assert forall|k: int| 0 <= k < stripped.len() implies is_blank(#[trigger] stripped[k]) by {
        assert(is_blank(ps[k]));
        let l = ps[k];
        assert forall|i: int| 0 <= i < strip_cr(l).len() implies crate::text::white_space(
            #[trigger] strip_cr(l)[i],
        ) by {
            assert(strip_cr(l)[i] == l[i]);
        }
    }
    lemma_keep_nonblank_of_blanks(stripped);
    assert(rs =~= Seq::<Result<T, E>>::empty());
}

} // verus!
