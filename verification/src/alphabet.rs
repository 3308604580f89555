//! Numeral systems: an ordered, uniquely indexed set of equal-length digit
//! strings built from one or more digit classes, plus an optional literal
//! prefix, with bidirectional digit/index lookup and prefix-based detection.

use crate::digitmaps::{
    digit_map_entries, digit_map_get, digit_map_insert, digit_map_len, digit_map_new,
    index_map_entries, index_map_get, index_map_insert, index_map_new,
};
use crate::numeral::{
    classes_width, distinct_seqs, lemma_classes_width_pos, lemma_product_digits_len,
    lemma_product_digits_width, product_digits, radix_of, valid_class, valid_classes,
};
use crate::BibiError;
use indexmap::IndexMap;
use vstd::prelude::*;
use vstd::string::StrSliceExecFns;
use vstd::string::StringExecFns;

verus! {

/// The largest radix a numeral system may have: chosen so that the carry
/// arithmetic of the conversion engine can never overflow a `usize`.
pub const MAX_RADIX: usize = (usize::MAX - 1) / 2;

/// The mathematical content of a numeral system: its literal prefix and its
/// digit strings, listed in index order (index 0 is the zero digit).
pub struct NsView {
    pub prefix: Seq<char>,
    pub digits: Seq<Seq<char>>,
}

impl NsView {
    /// The radix: the number of digits.
    pub open spec fn radix(self) -> int {
        self.digits.len() as int
    }

    /// The common character width of every digit string.
    pub open spec fn width(self) -> int {
        self.digits[0].len() as int
    }

    /// A usable numeral system: at least two pairwise distinct digits, all of
    /// one positive width, and few enough to index with machine integers.
    pub open spec fn valid(self) -> bool {
        &&& self.digits.len() >= 2
        &&& self.digits.len() <= MAX_RADIX as int
        &&& distinct_seqs(self.digits)
        &&& self.width() >= 1
        &&& forall|i: int|
            0 <= i < self.digits.len() ==> (#[trigger] self.digits[i]).len() == self.width()
    }
}

/// The views of a list of digit classes handed to the constructor.
pub open spec fn class_views(entry: Seq<Vec<&str>>) -> Seq<Seq<Seq<char>>> {
    entry.map_values(|c: Vec<&str>| c@.map_values(|d: &str| d@))
}

/// The views of a list of digit classes given as owned strings.
pub open spec fn class_views_owned(entry: Seq<Vec<String>>) -> Seq<Seq<Seq<char>>> {
    entry.map_values(|c: Vec<String>| c@.map_values(|d: String| d@))
}

/// Construction succeeds exactly for these class lists: well-formed classes
/// whose combined digit set is duplicate-free and of machine-indexable size,
/// with at least two digits.
pub open spec fn buildable(classes: Seq<Seq<Seq<char>>>) -> bool {
    &&& valid_classes(classes)
    &&& distinct_seqs(product_digits(classes))
    &&& radix_of(classes) >= 2
    &&& radix_of(classes) <= MAX_RADIX as int
}

/// The views of a sequence of owned strings.
pub open spec fn string_views(v: Seq<String>) -> Seq<Seq<char>> {
    v.map_values(|s: String| s@)
}

/// The digit strings joined with a comma and a space, in index order.
pub open spec fn joined_digits(digits: Seq<Seq<char>>) -> Seq<char>
    decreases digits.len(),
{
    if digits.len() == 0 {
        Seq::empty()
    } else if digits.len() == 1 {
        digits[0]
    } else {
        joined_digits(digits.drop_last()) + ", "@ + digits.last()
    }
}

/// `prefix` is nonempty and a leading substring of `s`.
pub open spec fn matches_prefix(prefix: Seq<char>, s: Seq<char>) -> bool {
    &&& prefix.len() > 0
    &&& prefix.len() <= s.len()
    &&& s.take(prefix.len() as int) == prefix
}

/// The views of a list of numeral system references.
pub open spec fn views_of(nums: Seq<&NumeralSystem>) -> Seq<NsView> {
    nums.map_values(|n: &NumeralSystem| n@)
}

/// Position `i` holds the single system whose nonempty prefix leads `s`.
pub open spec fn unique_match_at(views: Seq<NsView>, s: Seq<char>, i: int) -> bool {
    &&& 0 <= i < views.len()
    &&& matches_prefix(views[i].prefix, s)
    &&& forall|j: int|
        0 <= j < views.len() && j != i ==> !matches_prefix((#[trigger] views[j]).prefix, s)
}

/// Exactly one of the given systems has a nonempty prefix leading `s`.
pub open spec fn has_unique_match(views: Seq<NsView>, s: Seq<char>) -> bool {
    exists|i: int| unique_match_at(views, s, i)
}

/// Define a numeral system by enumerating all of its digits, the zero digit
/// first. The radix equals the number of digits; one digit may have any
/// number of characters, but all digits must have the same length.
pub struct NumeralSystem {
    prefix: String,
    len_digit: usize,
    digits: IndexMap<String, usize>,
    // maintains the reverse list of digits to find them quickly
    revdigits: IndexMap<usize, String>,
}

impl View for NumeralSystem {
    type V = NsView;

    closed spec fn view(&self) -> NsView {
        NsView {
            prefix: self.prefix@,
            digits: index_map_entries(self.revdigits).map_values(|p: (usize, Seq<char>)| p.1),
        }
    }
}

impl NumeralSystem {
    /// The two lookup maps agree with each other and with the view, the view
    /// is valid, and the recorded digit width is the digits' width.
    pub closed spec fn wf(&self) -> bool {
        let rev = index_map_entries(self.revdigits);
        let fwd = digit_map_entries(self.digits);
        &&& self@.valid()
        &&& fwd.len() == rev.len()
        &&& forall|i: int| 0 <= i < rev.len() ==> (#[trigger] rev[i]).0 == i as usize
        &&& forall|i: int|
            0 <= i < fwd.len() ==> #[trigger] fwd[i] == (self@.digits[i], i as usize)
        &&& self.len_digit as int == self@.width()
    }

    /// Returns a new numeral system from the given digit classes. When several
    /// classes are given, the digits are the Cartesian product of all classes,
    /// the first class most significant.
    /// - Example: for the decimal system the entry must be
    ///   `vec![vec!["0", "1", "2", "3", "4", "5", "6", "7", "8", "9"]]`.
    pub fn new(prefix: &str, entry: Vec<Vec<&str>>) -> (r: Result<NumeralSystem, BibiError>)
        ensures
            match r {
                Ok(ns) => {
                    &&& buildable(class_views(entry@))
                    &&& ns.wf()
                    &&& ns@.prefix == prefix@
                    &&& ns@.digits == product_digits(class_views(entry@))
                },
                Err(e) => e is BadNumeralSystem && !buildable(class_views(entry@)),
            },
    {
        let ghost classes = class_views(entry@);
        if !check_classes(&entry) {
            return Err(BibiError::BadNumeralSystem);
        }
        let prod = build_product(&entry);
        let ghost pv = string_views(prod@);
        proof {
            lemma_product_digits_len(classes);
            lemma_classes_width_pos(classes);
        }
        if prod.len() < 2 {
            return Err(BibiError::BadNumeralSystem);
        }
        if prod.len() > MAX_RADIX {
            return Err(BibiError::BadNumeralSystem);
        }
        let len_digit = prod[0].unicode_len();
        proof {
            lemma_product_digits_width(classes, 0);
        }
        let mut digits = digit_map_new();
        let mut revdigits = index_map_new();
        let mut i: usize = 0;
        while i < prod.len()
            invariant
                0 <= i <= prod@.len(),
                classes == class_views(entry@),
                pv == string_views(prod@),
                pv == product_digits(classes),
                digit_map_entries(digits) == Seq::new(i as nat, |j: int| (pv[j], j as usize)),
                index_map_entries(revdigits) == Seq::new(i as nat, |j: int| (j as usize, pv[j])),
                forall|j1: int, j2: int| 0 <= j1 < j2 < i ==> pv[j1] !== pv[j2],
            decreases prod@.len() - i,
        {
            let d = prod[i].clone();
            let ghost fwd = digit_map_entries(digits);
            match digit_map_get(&digits, d.as_str()) {
                Some(v) => {
                    proof {
                        let j = choose|j: int| 0 <= j < fwd.len() && fwd[j] == (d@, v);
                        assert(pv[j] == pv[i as int] && j < i as int);
                        assert(!distinct_seqs(pv));
                    }
                    return Err(BibiError::BadNumeralSystem);
                },
                None => {},
            }
            proof {
                assert forall|j: int| 0 <= j < i implies #[trigger] pv[j] !== pv[i as int] by {
                    assert(fwd[j] == (pv[j], j as usize));
                }
            }
            let drev = d.clone();
            digit_map_insert(&mut digits, d, i);
            index_map_insert(&mut revdigits, i, drev);
            proof {
                assert(digit_map_entries(digits) =~= Seq::new(
                    (i + 1) as nat,
                    |j: int| (pv[j], j as usize),
                ));
                assert(index_map_entries(revdigits) =~= Seq::new(
                    (i + 1) as nat,
                    |j: int| (j as usize, pv[j]),
                ));
            }
            i += 1;
        }
        let ns = NumeralSystem { prefix: prefix.to_owned(), len_digit, digits, revdigits };
        proof {
            assert(distinct_seqs(pv));
            assert(ns@.digits =~= pv);
            assert(ns@.width() == classes_width(classes));
            assert forall|k: int| 0 <= k < pv.len() implies (#[trigger] pv[k]).len()
                == classes_width(classes) by {
                lemma_product_digits_width(classes, k);
            }
            assert(ns@.valid());
            assert(ns.wf());
        }
        Ok(ns)
    }

    /// Same as `new` but from owned strings.
    pub fn new_from_strings(prefix: String, entry: Vec<Vec<String>>) -> (r: Result<
        NumeralSystem,
        BibiError,
    >)
        ensures
            match r {
                Ok(ns) => {
                    &&& buildable(class_views_owned(entry@))
                    &&& ns.wf()
                    &&& ns@.prefix == prefix@
                    &&& ns@.digits == product_digits(class_views_owned(entry@))
                },
                Err(e) => e is BadNumeralSystem && !buildable(class_views_owned(entry@)),
            },
    {
        let mut entry_str: Vec<Vec<&str>> = Vec::new();
        let mut ci: usize = 0;
        while ci < entry.len()
            invariant
                0 <= ci <= entry@.len(),
                entry_str@.len() == ci,
                forall|c: int|
                    0 <= c < ci ==> class_views(entry_str@)[c] == class_views_owned(entry@)[c],
            decreases entry@.len() - ci,
        {
            let class: &Vec<String> = &entry[ci];
            let mut cls: Vec<&str> = Vec::new();
            let mut di: usize = 0;
            while di < class.len()
                invariant
                    0 <= di <= class@.len(),
                    cls@.len() == di,
                    forall|j: int| 0 <= j < di ==> (#[trigger] cls@[j])@ == class@[j]@,
                decreases class@.len() - di,
            {
                cls.push(class[di].as_str());
                di += 1;
            }
            proof {
                assert(cls@.map_values(|d: &str| d@) =~= class@.map_values(|s: String| s@));
            }
            entry_str.push(cls);
            proof {
                assert(class_views(entry_str@)[ci as int] == cls@.map_values(|d: &str| d@));
            }
            ci += 1;
        }
        proof {
            assert(class_views(entry_str@) =~= class_views_owned(entry@));
        }
        NumeralSystem::new(prefix.as_str(), entry_str)
    }

    /// Finds, among the given numeral systems, the single one whose nonempty
    /// prefix is a leading substring of `number`; `None` when no prefix or
    /// more than one prefix matches.
    pub fn autodetect<'a>(number: &str, nums: Vec<&'a NumeralSystem>) -> (r: Option<
        &'a NumeralSystem,
    >)
        ensures
            match r {
                Some(ns) => exists|i: int|
                    0 <= i < nums@.len() && nums@[i] == ns && #[trigger] unique_match_at(
                        views_of(nums@),
                        number@,
                        i,
                    ),
                None => !has_unique_match(views_of(nums@), number@),
            },
    {
        let ghost vs = views_of(nums@);
        let mut found: Option<&'a NumeralSystem> = None;
        let mut count: usize = 0;
        let ghost mut widx: int = 0;
        let ghost mut w2: int = 0;
        let mut i: usize = 0;
        while i < nums.len()
            invariant
                0 <= i <= nums@.len(),
                vs == views_of(nums@),
                vs.len() == nums@.len(),
                count <= i,
                count == 0 ==> forall|j: int|
                    0 <= j < i ==> !matches_prefix((#[trigger] vs[j]).prefix, number@),
                count == 1 ==> {
                    &&& 0 <= widx < i
                    &&& matches_prefix(vs[widx].prefix, number@)
                    &&& found == Some(nums@[widx])
                    &&& forall|j: int|
                        0 <= j < i && j != widx ==> !matches_prefix(
                            (#[trigger] vs[j]).prefix,
                            number@,
                        )
                },
                count >= 2 ==> {
                    &&& 0 <= widx < w2 < i
                    &&& matches_prefix(vs[widx].prefix, number@)
                    &&& matches_prefix(vs[w2].prefix, number@)
                },
            decreases nums@.len() - i,
        {
            let ns: &NumeralSystem = nums[i];
            proof {
                assert(vs[i as int] == ns@);
            }
            if matches_prefix_exec(number, ns.prefix.as_str()) {
                count += 1;
                if count == 1 {
                    found = Some(ns);
                    proof {
                        widx = i as int;
                    }
                } else {
                    proof {
                        if count == 2 {
                            w2 = i as int;
                        }
                    }
                }
            }
            i += 1;
        }
        if count == 1 {
            proof {
                assert(unique_match_at(vs, number@, widx));
            }
            found
        } else {
            proof {
                if has_unique_match(vs, number@) {
                    let k = choose|k: int| unique_match_at(vs, number@, k);
                    if count == 0 {
                        assert(!matches_prefix(vs[k].prefix, number@));
                    } else {
                        assert(count >= 2);
                        if k != widx {
                            assert(!matches_prefix(vs[widx].prefix, number@));
                        } else {
                            assert(!matches_prefix(vs[w2].prefix, number@));
                        }
                    }
                }
            }
            None
        }
    }

    /// A well-formed numeral system has a valid view.
    pub proof fn lemma_wf_valid(&self)
        requires
            self.wf(),
        ensures
            self@.valid(),
    {
    }

    /// Index of `digit` in this numeral system, or `EntryMismatch` when the
    /// string is not one of its digits.
    pub fn lookup_index(&self, digit: &str) -> (r: Result<usize, BibiError>)
        requires
            self.wf(),
        ensures
            match r {
                Ok(idx) => idx < self@.digits.len() && self@.digits[idx as int] == digit@,
                Err(e) => e is EntryMismatchWithNumeralSystem && !self@.digits.contains(digit@),
            },
    {
        match digit_map_get(&self.digits, digit) {
            Some(idx) => {
                proof {
                    let fwd = digit_map_entries(self.digits);
                    let i = choose|i: int| 0 <= i < fwd.len() && fwd[i] == (digit@, idx);
                    assert(fwd[i] == (self@.digits[i], i as usize));
                }
                Ok(idx)
            },
            None => {
                proof {
                    let fwd = digit_map_entries(self.digits);
                    assert forall|i: int| 0 <= i < self@.digits.len()
                        implies #[trigger] self@.digits[i] !== digit@ by {
                        assert(fwd[i] == (self@.digits[i], i as usize));
                    }
                }
                Err(BibiError::EntryMismatchWithNumeralSystem)
            },
        }
    }

    /// The digit string standing at `index`, defined for `index < radix`.
    pub fn lookup_digit(&self, index: usize) -> (r: String)
        requires
            self.wf(),
            index < self@.digits.len(),
        ensures
            r@ == self@.digits[index as int],
    {
        match index_map_get(&self.revdigits, index) {
            Some(s) => {
                proof {
                    let rev = index_map_entries(self.revdigits);
                    let i = choose|i: int| 0 <= i < rev.len() && rev[i] == (index, s@);
                    assert(rev[index as int].0 == index);
                    if i != index as int {
                        assert(rev[i].0 == i as usize);
                    }
                }
                s
            },
            None => {
                proof {
                    let rev = index_map_entries(self.revdigits);
                    assert(rev[index as int].0 == index);
                    assert(false);
                }
                String::new()
            },
        }
    }

    /// The common character width of this system's digits.
    pub(crate) fn digit_width(&self) -> (w: usize)
        requires
            self.wf(),
        ensures
            w as int == self@.width(),
            w >= 1,
    {
        self.len_digit
    }

    /// Returns the number of digits of this numeral system.
    pub fn len(&self) -> (n: usize)
        requires
            self.wf(),
        ensures
            n as int == self@.radix(),
    {
        proof {
            let rev = index_map_entries(self.revdigits);
            assert(self@.digits.len() == rev.len());
        }
        digit_map_len(&self.digits)
    }

    /// Returns the radix of this numeral system (= number of digits).
    pub fn radix(&self) -> (n: usize)
        requires
            self.wf(),
        ensures
            n as int == self@.radix(),
    {
        self.len()
    }

    /// The literal prefix tagging this system's representations.
    pub fn get_prefix(&self) -> (r: String)
        ensures
            r@ == self@.prefix,
    {
        self.prefix.clone()
    }

    /// All digit strings of this system joined with a comma and a space, in
    /// index order.
    pub fn digits_string(&self) -> (r: String)
        requires
            self.wf(),
        ensures
            r@ == joined_digits(self@.digits),
    {
        let mut disp = String::new();
        let n = self.len();
        let mut i: usize = 0;
        while i < n
            invariant
                self.wf(),
                n as int == self@.digits.len(),
                0 <= i <= n,
                disp@ == joined_digits(self@.digits.take(i as int)),
            decreases n - i,
        {
            if i > 0 {
                disp.append(", ");
            }
            let d = self.lookup_digit(i);
            disp.append(d.as_str());
            proof {
                let taken = self@.digits.take(i as int + 1);
                assert(taken.drop_last() =~= self@.digits.take(i as int));
                assert(taken.last() == self@.digits[i as int]);
                if i == 0 {
                    assert(disp@ =~= joined_digits(taken));
                }
            }
            i += 1;
        }
        proof {
            assert(self@.digits.take(n as int) =~= self@.digits);
        }
        disp
    }

    /// Replaces the prefix; the digits are untouched.
    pub fn set_prefix(&mut self, prefix: &str)
        ensures
            final(self)@.prefix == prefix@,
            final(self)@.digits == old(self)@.digits,
            old(self).wf() ==> final(self).wf(),
    {
        self.prefix = prefix.to_owned();
    }
}

/// Each class is nonempty with entries of one positive width.
fn check_classes(entry: &Vec<Vec<&str>>) -> (r: bool)
    ensures
        r == valid_classes(class_views(entry@)),
{
    let ghost classes = class_views(entry@);
    if entry.len() == 0 {
        return false;
    }
    let mut ci: usize = 0;
    while ci < entry.len()
        invariant
            0 <= ci <= entry@.len(),
            classes == class_views(entry@),
            classes.len() == entry@.len(),
            forall|c: int| 0 <= c < ci ==> valid_class(#[trigger] classes[c]),
        decreases entry@.len() - ci,
    {
        let class: &Vec<&str> = &entry[ci];
        let ghost cv = classes[ci as int];
        proof {
            assert(cv == class@.map_values(|d: &str| d@));
        }
        if class.len() == 0 {
            assert(!valid_class(cv));
            return false;
        }
        let w = class[0].unicode_len();
        proof {
            assert(cv[0] == class@[0]@);
        }
        if w == 0 {
            assert(!valid_class(cv));
            return false;
        }
        let mut di: usize = 1;
        while di < class.len()
            invariant
                1 <= di <= class@.len(),
                classes == class_views(entry@),
                0 <= ci < classes.len(),
                cv == classes[ci as int],
                cv == class@.map_values(|d: &str| d@),
                cv.len() == class@.len(),
                w as int == cv[0].len(),
                w >= 1,
                forall|j: int| 0 <= j < di ==> (#[trigger] cv[j]).len() == w as int,
            decreases class@.len() - di,
        {
            if class[di].unicode_len() != w {
                proof {
                    assert(cv[di as int] == class@[di as int]@);
                    assert(cv[di as int].len() != cv[0].len());
                }
                return false;
            }
            proof {
                assert(cv[di as int] == class@[di as int]@);
            }
            di += 1;
        }
        assert(valid_class(cv));
        ci += 1;
    }
    true
}

/// Builds the combined digit set of the given classes by an iterative
/// Cartesian product, the first class varying slowest.
fn build_product(entry: &Vec<Vec<&str>>) -> (prod: Vec<String>)
    requires
        valid_classes(class_views(entry@)),
    ensures
        string_views(prod@) == product_digits(class_views(entry@)),
{
    let ghost classes = class_views(entry@);
    let mut prod: Vec<String> = Vec::new();
    prod.push(String::new());
    proof {
        assert(classes.take(0) =~= Seq::<Seq<Seq<char>>>::empty());
        assert(string_views(prod@) =~= product_digits(classes.take(0)));
    }
    let mut ci: usize = 0;
    while ci < entry.len()
        invariant
            0 <= ci <= entry@.len(),
            classes == class_views(entry@),
            classes.len() == entry@.len(),
            valid_classes(classes),
            string_views(prod@) == product_digits(classes.take(ci as int)),
        decreases entry@.len() - ci,
    {
        let class: &Vec<&str> = &entry[ci];
        let ghost cv = classes[ci as int];
        let ghost pv = string_views(prod@);
        let ghost target = crate::numeral::cross_digits(pv, cv);
        proof {
            assert(cv == class@.map_values(|d: &str| d@));
            assert(valid_class(cv));
            assert(target.len() == pv.len() * cv.len());
        }
        let m = class.len();
        let mut next: Vec<String> = Vec::new();
        let mut pi: usize = 0;
        while pi < prod.len()
            invariant
                0 <= pi <= prod@.len(),
                m == class@.len(),
                m >= 1,
                cv == class@.map_values(|d: &str| d@),
                cv.len() == m as int,
                pv == string_views(prod@),
                target == crate::numeral::cross_digits(pv, cv),
                target.len() == pv.len() * cv.len(),
                string_views(next@) == target.take(pi as int * m as int),
                next@.len() == pi as int * m as int,
            decreases prod@.len() - pi,
        {
            let mut di: usize = 0;
            while di < m
                invariant
                    0 <= di <= m,
                    0 <= pi < prod@.len(),
                    m == class@.len(),
                    m >= 1,
                    cv == class@.map_values(|d: &str| d@),
                    cv.len() == m as int,
                    pv == string_views(prod@),
                    target == crate::numeral::cross_digits(pv, cv),
                    target.len() == pv.len() * cv.len(),
                    string_views(next@) == target.take(pi as int * m as int + di as int),
                    next@.len() == pi as int * m as int + di as int,
                decreases m - di,
            {
                let ghost k = pi as int * m as int + di as int;
                let mut s = prod[pi].clone();
                s.append(class[di]);
                proof {
                    vstd::arithmetic::div_mod::lemma_fundamental_div_mod_converse(
                        k,
                        m as int,
                        pi as int,
                        di as int,
                    );
                    assert(k < pv.len() * (m as int)) by (nonlinear_arith)
                        requires
                            0 <= (pi as int) && (pi as int) < pv.len() && 0 <= (di as int) && (di
                                as int) < (m as int) && k == (pi as int) * (m as int) + (di as int);
                    assert(target[k] == pv[pi as int] + cv[di as int]);
                    assert(pv[pi as int] == prod@[pi as int]@);
                    assert(cv[di as int] == class@[di as int]@);
                    assert(s@ == target[k]);
                }
                next.push(s);
                proof {
                    assert(string_views(next@) =~= target.take(k + 1));
                }
                di += 1;
            }
            pi += 1;
            proof {
                assert((pi - 1) * m + m == pi as int * m as int) by (nonlinear_arith);
            }
        }
        prod = next;
        ci += 1;
        proof {
            assert(string_views(prod@) =~= target.take(target.len() as int));
            assert(string_views(prod@) =~= target);
            assert(classes.take(ci as int).drop_last() =~= classes.take(ci as int - 1));
            assert(classes.take(ci as int).last() == cv);
            assert(product_digits(classes.take(ci as int)) == crate::numeral::cross_digits(
                product_digits(classes.take(ci as int - 1)),
                cv,
            ));
        }
    }
    proof {
        assert(classes.take(entry@.len() as int) =~= classes);
    }
    prod
}

/// `p` is nonempty and a leading substring of `s`.
pub(crate) fn matches_prefix_exec(s: &str, p: &str) -> (r: bool)
    ensures
        r == matches_prefix(p@, s@),
{
    let pl = p.unicode_len();
    if pl == 0 {
        return false;
    }
    let sl = s.unicode_len();
    if pl > sl {
        return false;
    }
    let mut k: usize = 0;
    while k < pl
        invariant
            0 < pl <= sl,
            pl == p@.len(),
            sl == s@.len(),
            0 <= k <= pl,
            forall|j: int| 0 <= j < k ==> s@[j] == p@[j],
        decreases pl - k,
    {
        if s.get_char(k) != p.get_char(k) {
            proof {
                assert(s@.take(pl as int)[k as int] != p@[k as int]);
            }
            return false;
        }
        k += 1;
    }
    proof {
        assert(s@.take(pl as int) =~= p@);
    }
    true
}

/// The two given strings hold the same characters.
pub(crate) fn str_eq(a: &str, b: &str) -> (r: bool)
    ensures
        r == (a@ == b@),
{
    let al = a.unicode_len();
    let bl = b.unicode_len();
    if al != bl {
        return false;
    }
    let mut k: usize = 0;
    while k < al
        invariant
            al == a@.len(),
            al == b@.len(),
            0 <= k <= al,
            forall|j: int| 0 <= j < k ==> a@[j] == b@[j],
        decreases al - k,
    {
        if a.get_char(k) != b.get_char(k) {
            return false;
        }
        k += 1;
    }
    proof {
        assert(a@ =~= b@);
    }
    true
}

/// Combinatorial size: an alphabet built from two classes of sizes `m` and
/// `n` has radix `m * n`.
pub proof fn lemma_combined_radix(c1: Seq<Seq<char>>, c2: Seq<Seq<char>>)
    ensures
        radix_of(seq![c1, c2]) == c1.len() * c2.len(),
        product_digits(seq![c1, c2]).len() == c1.len() * c2.len(),
{
    let cs = seq![c1, c2];
    assert(cs.drop_last() =~= seq![c1]);
    assert(seq![c1].drop_last() =~= Seq::<Seq<Seq<char>>>::empty());
    assert(radix_of(Seq::<Seq<Seq<char>>>::empty()) == 1);
    assert(seq![c1].last() == c1);
    assert(radix_of(seq![c1]) == 1 * c1.len());
    assert(cs.last() == c2);
    lemma_product_digits_len(cs);
}

/// A further candidate with an empty prefix never matches, so it can neither
/// create nor remove ambiguity in prefix detection.
pub proof fn lemma_empty_prefix_no_ambiguity(views: Seq<NsView>, extra: NsView, s: Seq<char>)
    requires
        extra.prefix.len() == 0,
    ensures
        has_unique_match(views.push(extra), s) == has_unique_match(views, s),
        forall|i: int|
            0 <= i < views.len() ==> #[trigger] unique_match_at(views.push(extra), s, i)
                == unique_match_at(views, s, i),
{
    let ext = views.push(extra);
    assert(!matches_prefix(extra.prefix, s));
    assert(forall|j: int| 0 <= j < views.len() ==> #[trigger] ext[j] == views[j]);
    assert(ext[views.len() as int] == extra);
    assert forall|i: int| 0 <= i < views.len() implies #[trigger] unique_match_at(ext, s, i)
        == unique_match_at(views, s, i) by {
        if unique_match_at(views, s, i) {
            assert forall|j: int| 0 <= j < ext.len() && j != i implies !matches_prefix(
                (#[trigger] ext[j]).prefix,
                s,
            ) by {
                if j < views.len() {
                    assert(ext[j] == views[j]);
                }
            }
            assert(unique_match_at(ext, s, i));
        }
        if unique_match_at(ext, s, i) {
            assert forall|j: int| 0 <= j < views.len() && j != i implies !matches_prefix(
                (#[trigger] views[j]).prefix,
                s,
            ) by {
                assert(ext[j] == views[j]);
                assert(!matches_prefix(ext[j].prefix, s));
            }
            assert(unique_match_at(views, s, i));
        }
    }
    if has_unique_match(views, s) {
        let i = choose|i: int| unique_match_at(views, s, i);
        assert(unique_match_at(ext, s, i));
        assert(has_unique_match(ext, s));
    }
    if has_unique_match(ext, s) {
        let i = choose|i: int| unique_match_at(ext, s, i);
        assert(matches_prefix(ext[i].prefix, s));
        assert(i != views.len());
        assert(ext[i] == views[i]);
        assert(unique_match_at(ext, s, i) == unique_match_at(views, s, i));
        assert(has_unique_match(views, s));
    }
}

} // verus!
