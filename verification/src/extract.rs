//! Extraction of candidate digit strings from free text by a regular
//! expression, before conversion.

use crate::alphabet::string_views;
use crate::coder::BibiCoder;
use crate::BibiError;
use vstd::prelude::*;

verus! {

/// Whether the regex crate accepts `pat` as a regular expression.
pub uninterp spec fn regex_ok(pat: Seq<char>) -> bool;

/// The capture groups of the leftmost match of `pat` in `text`: `None` when
/// the pattern does not match; otherwise one entry per capture group of the
/// pattern, group 0 the whole match, and `None` for a group that took no part
/// in the match.
pub uninterp spec fn regex_groups(pat: Seq<char>, text: Seq<char>) -> Option<
    Seq<Option<Seq<char>>>,
>;

/// What one run of a pattern against a text can produce.
enum CaptureOutcome {
    BadPattern,
    NoMatch,
    Groups(Vec<Option<String>>),
}

/// The views of a list of optional captured strings.
spec fn group_views(gs: Seq<Option<String>>) -> Seq<Option<Seq<char>>> {
    gs.map_values(
        |g: Option<String>|
            match g {
                Some(s) => Some(s@),
                None => None,
            },
    )
}

/// The values of the `Some` entries, in order.
pub open spec fn unwrap_somes(gs: Seq<Option<Seq<char>>>) -> Seq<Seq<char>>
    decreases gs.len(),
{
    if gs.len() == 0 {
        Seq::empty()
    } else {
        let rest = unwrap_somes(gs.drop_last());
        match gs.last() {
            Some(v) => rest.push(v),
            None => rest,
        }
    }
}

/// The numbers extraction finds in `text` with the nonempty pattern `pat`,
/// provided the pattern is valid and matches: the capture groups that took
/// part in the match, group 0 (the whole match) excluded.
pub open spec fn extracted(pat: Seq<char>, text: Seq<char>) -> Seq<Seq<char>> {
    unwrap_somes(regex_groups(pat, text)->0.skip(1))
}

/// Relies on `regex::Regex::new` and `regex::Regex::captures`: `new` accepts
/// exactly the syntactically valid patterns, and `captures` returns the
/// capture groups of the leftmost match, a function of pattern and text
/// alone; group 0, the whole match, is always present.
#[verifier::external_body]
fn run_captures(pat: &str, text: &str) -> (r: CaptureOutcome)
    ensures
        (r is BadPattern) == !regex_ok(pat@),
        regex_ok(pat@) ==> ((r is NoMatch) == (regex_groups(pat@, text@) is None)),
        r matches CaptureOutcome::Groups(gs) ==> regex_groups(pat@, text@) is Some
            && group_views(gs@) == regex_groups(pat@, text@)->0 && gs@.len() >= 1,
{
    match regex::Regex::new(pat) {
        Err(_) => CaptureOutcome::BadPattern,
        Ok(re) => match re.captures(text) {
            None => CaptureOutcome::NoMatch,
            Some(caps) => CaptureOutcome::Groups(
                caps.iter().map(|g| g.map(|m| m.as_str().to_string())).collect(),
            ),
        },
    }
}

impl BibiCoder {
    /// Finds all numbers in `entry` by the given regular expression: with an
    /// empty expression, the entry itself; otherwise the capture groups that
    /// took part in the pattern's first match.
    pub fn extract_numbers(entry: &str, reg: &str) -> (r: Result<Vec<String>, BibiError>)
        ensures
            match r {
                Ok(numbers) => {
                    &&& reg@.len() == 0 ==> string_views(numbers@) == seq![entry@]
                    &&& reg@.len() > 0 ==> {
                        &&& regex_ok(reg@)
                        &&& regex_groups(reg@, entry@) is Some
                        &&& string_views(numbers@) == extracted(reg@, entry@)
                    }
                },
                Err(e) => match e {
                    BibiError::BadRegularExpression => reg@.len() > 0 && !regex_ok(reg@),
                    BibiError::RegexMismatchWithEntry => reg@.len() > 0 && regex_ok(reg@)
                        && regex_groups(reg@, entry@) is None,
                    _ => false,
                },
            },
    {
        let mut numbers: Vec<String> = Vec::new();

        if !reg.is_empty() {
            match run_captures(reg, entry) {
                CaptureOutcome::BadPattern => {
                    return Err(BibiError::BadRegularExpression);
                },
                CaptureOutcome::NoMatch => {
                    return Err(BibiError::RegexMismatchWithEntry);
                },
                CaptureOutcome::Groups(groups) => {
                    let ghost gv = group_views(groups@);
                    let mut i: usize = 1;
                    proof {
                        assert(gv.subrange(1, 1) =~= Seq::<Option<Seq<char>>>::empty());
                    }
                    while i < groups.len()
                        invariant
                            1 <= i <= groups@.len(),
                            gv == group_views(groups@),
                            gv.len() == groups@.len(),
                            string_views(numbers@) == unwrap_somes(gv.subrange(1, i as int)),
                        decreases groups@.len() - i,
                    {
                        let g = &groups[i];
                        proof {
                            assert(gv.subrange(1, i + 1).drop_last() =~= gv.subrange(1, i as int));
                            assert(gv[i as int] == (match groups@[i as int] {
                                Some(s) => Some(s@),
                                None => None,
                            }));
                        }
                        match g {
                            Some(number) => {
                                numbers.push(number.clone());
                                proof {
                                    assert(string_views(numbers@) =~= unwrap_somes(
                                        gv.subrange(1, i + 1),
                                    ));
                                }
                            },
                            None => {
                                proof {
                                    assert(string_views(numbers@) =~= unwrap_somes(
                                        gv.subrange(1, i + 1),
                                    ));
                                }
                            },
                        }
                        i += 1;
                    }
                    proof {
                        assert(gv.subrange(1, gv.len() as int) =~= gv.skip(1));
                    }
                },
            }
        } else {
            numbers.push(entry.to_owned());
            proof {
                assert(string_views(numbers@) =~= seq![entry@]);
            }
        }

        Ok(numbers)
    }
}

} // verus!
