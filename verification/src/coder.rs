//! The conversion engine: a bidirectional, binary-pivoted, digit-wise
//! transform between two numeral systems, able to handle numbers of any
//! length without native big-integer arithmetic.
//!
//! Phase one (`tsujda_tfihs`, a reversed shift-adjust) repeatedly halves the
//! multi-digit source number by a long-division sweep, collecting remainder
//! bits into a binary pivot, most significant bit first. Phase two
//! (`shift_adjust`) rebuilds the number in the target radix by doubling a
//! digit array and adding one pivot bit at a time.

use crate::alphabet::{matches_prefix_exec, NsView, NumeralSystem};
use crate::numeral::{
    canonical_le, concat_digits, digits_nonneg, first_index_of, lemma_first_index_of_distinct,
    lemma_first_index_of_spec, lemma_value_acc_lower, lemma_value_acc_push,
    lemma_value_be_all_zero, lemma_value_be_pos, lemma_value_be_reverse, lemma_value_le_nonneg,
    lemma_repr_le_canonical, lemma_repr_le_unique, repr_le, value_acc, value_be, value_le,
};
use crate::BibiError;
use vstd::prelude::*;
use vstd::string::StrSliceExecFns;
use vstd::string::StringExecFns;

verus! {

/// The digit values of a machine-integer digit array.
pub open spec fn usize_ints(s: Seq<usize>) -> Seq<int> {
    s.map_values(|x: usize| x as int)
}

/// Bits as binary digits.
pub open spec fn bits_ints(bits: Seq<bool>) -> Seq<int> {
    bits.map_values(|b: bool| if b { 1int } else { 0int })
}

/// The value of a most-significant-first bit sequence.
pub open spec fn bits_value(bits: Seq<bool>) -> int {
    value_be(bits_ints(bits), 2)
}

/// `entry` with the source prefix removed, when the prefix is nonempty,
/// strictly shorter than the entry, and leads it.
pub open spec fn strip_prefix(prefix: Seq<char>, entry: Seq<char>) -> Seq<char> {
    if prefix.len() > 0 && entry.len() > prefix.len() && entry.take(prefix.len() as int)
        == prefix {
        entry.skip(prefix.len() as int)
    } else {
        entry
    }
}

/// The `i`-th chunk of `w` characters of `s`.
pub open spec fn chunk_of(s: Seq<char>, w: int, i: int) -> Seq<char> {
    s.subrange(i * w, (i + 1) * w)
}

/// How many whole chunks of `w` characters `s` holds; a trailing fragment
/// shorter than one digit is dropped.
pub open spec fn chunk_count(s: Seq<char>, w: int) -> int {
    s.len() as int / w
}

/// Every chunk of the stripped entry is a digit of the system.
pub open spec fn all_chunks_found(s: Seq<char>, sys: NsView) -> bool {
    forall|i: int|
        0 <= i < chunk_count(s, sys.width()) ==> first_index_of(
            sys.digits,
            #[trigger] chunk_of(s, sys.width(), i),
        ) >= 0
}

/// The digit indices the system reads from the stripped entry, most
/// significant first.
pub open spec fn chunk_indices(s: Seq<char>, sys: NsView) -> Seq<int> {
    Seq::new(
        chunk_count(s, sys.width()) as nat,
        |i: int| first_index_of(sys.digits, chunk_of(s, sys.width(), i)),
    )
}

/// The value the system `sys` reads from `entry`: the prefix is stripped, the
/// rest cut into digit-width chunks and looked up; `None` when some chunk is
/// not a digit of the system.
pub open spec fn parse_value(sys: NsView, entry: Seq<char>) -> Option<int> {
    let s = strip_prefix(sys.prefix, entry);
    if all_chunks_found(s, sys) {
        Some(value_be(chunk_indices(s, sys), sys.radix()))
    } else {
        None
    }
}

/// The canonical rendering of the value `v` in the system `sys`: its prefix,
/// then the digit string of every digit of the canonical representation of
/// `v`, most significant digit first.
pub open spec fn render_value(sys: NsView, v: int) -> Seq<char> {
    sys.prefix + concat_digits(
        repr_le(v, sys.radix()).reverse().map_values(|d: int| sys.digits[d]),
    )
}

/// What a conversion computes: parse the entry in the source system, render
/// its value in the target system.
pub open spec fn convert_spec(src: NsView, dst: NsView, entry: Seq<char>) -> Option<Seq<char>> {
    match parse_value(src, entry) {
        Some(v) => Some(render_value(dst, v)),
        None => None,
    }
}

/// A little-endian digit array as the conversion engine grows it: nonempty,
/// in range, with no superfluous most-significant zero digit.
spec fn le_array_wf(s: Seq<usize>, radix: int) -> bool {
    &&& s.len() >= 1
    &&& forall|j: int| 0 <= j < s.len() ==> (#[trigger] s[j]) < radix
    &&& (s.len() > 1 ==> s.last() >= 1)
}

/// Convert any number from one numeral system to the other.
pub struct BibiCoder {
    numsys_in: NumeralSystem,
    numsys_out: NumeralSystem,
}

impl BibiCoder {
    /// The source numeral system.
    pub closed spec fn src(&self) -> NsView {
        self.numsys_in@
    }

    /// The target numeral system.
    pub closed spec fn dst(&self) -> NsView {
        self.numsys_out@
    }

    /// Both held numeral systems are well-formed.
    pub closed spec fn wf(&self) -> bool {
        self.numsys_in.wf() && self.numsys_out.wf()
    }

    /// Builds a coder from the `numsys_in` numeral system to `numsys_out`.
    pub fn new(numsys_in: NumeralSystem, numsys_out: NumeralSystem) -> (r: BibiCoder)
        ensures
            r.src() == numsys_in@,
            r.dst() == numsys_out@,
            numsys_in.wf() && numsys_out.wf() ==> r.wf(),
    {
        BibiCoder { numsys_in, numsys_out }
    }

    /// Swaps a natural number coded in the source system into the target
    /// system: the result is the target prefix followed by the canonical
    /// target representation of the entry's value.
    pub fn swap(&self, entry: &str) -> (r: Result<String, BibiError>)
        requires
            self.wf(),
        ensures
            match r {
                Ok(out) => convert_spec(self.src(), self.dst(), entry@) == Some(out@),
                Err(e) => {
                    &&& e is EntryMismatchWithNumeralSystem
                    &&& convert_spec(self.src(), self.dst(), entry@) is None
                },
            },
    {
        let pivot = match self.tsujda_tfihs(entry) {
            Ok(pivot) => pivot,
            Err(e) => {
                return Err(e);
            },
        };
        Ok(self.shift_adjust(pivot))
    }

    /// Computes the multi-digit source number into its binary pivot, most
    /// significant bit first, by repeated long division by two.
    fn tsujda_tfihs(&self, entry: &str) -> (r: Result<Vec<bool>, BibiError>)
        requires
            self.wf(),
        ensures
            match r {
                Ok(pivot) => {
                    &&& parse_value(self.src(), entry@) is Some
                    &&& bits_value(pivot@) == parse_value(self.src(), entry@)->0
                },
                Err(e) => {
                    &&& e is EntryMismatchWithNumeralSystem
                    &&& parse_value(self.src(), entry@) is None
                },
            },
    {
        let ghost src = self.src();
        proof {
            self.numsys_in.lemma_wf_valid();
        }
        // erase the prefix if present
        let prefstr = self.numsys_in.get_prefix();
        let plen = prefstr.as_str().unicode_len();
        let elen = entry.unicode_len();
        let rel_entry: &str = if plen > 0 && elen > plen && matches_prefix_exec(
            entry,
            prefstr.as_str(),
        ) {
            entry.substring_char(plen, elen)
        } else {
            entry
        };
        let ghost s = strip_prefix(src.prefix, entry@);
        proof {
            assert(rel_entry@ == s);
        }
        let radix = self.numsys_in.len();
        let w = self.numsys_in.digit_width();
        let n = rel_entry.unicode_len();
        let cnt = n / w;
        let ghost idxs = chunk_indices(s, src);
        proof {
            assert(idxs.len() == cnt as int);
        }

        // compute the digit values of the entry
        let mut bcd: Vec<usize> = Vec::new();
        let mut i: usize = 0;
        while i < cnt
            invariant
                self.wf(),
                src == self.src(),
                src.valid(),
                s == strip_prefix(src.prefix, entry@),
                w as int == src.width(),
                w >= 1,
                radix as int == src.radix(),
                n == s.len(),
                rel_entry@ == s,
                cnt as int == chunk_count(s, src.width()),
                idxs == chunk_indices(s, src),
                0 <= i <= cnt,
                bcd@.len() == i as int,
                forall|j: int| 0 <= j < i ==> first_index_of(
                    src.digits,
                    #[trigger] chunk_of(s, src.width(), j),
                ) >= 0,
                forall|j: int| 0 <= j < i ==> (#[trigger] bcd@[j]) as int == idxs[j],
                forall|j: int| 0 <= j < i ==> (#[trigger] bcd@[j]) < radix,
            decreases cnt - i,
        {
            proof {
                vstd::arithmetic::div_mod::lemma_fundamental_div_mod(n as int, w as int);
                vstd::arithmetic::div_mod::lemma_mod_bound(n as int, w as int);
                assert((i as int + 1) * (w as int) <= n as int) by (nonlinear_arith)
                    requires
                        (i as int) < (n as int) / (w as int) && w >= 1 && (w as int) * ((n as int)
                            / (w as int)) + (n as int) % (w as int) == n as int && (n as int) % (
                        w as int) >= 0;
                assert((i as int) * (w as int) >= 0 && (i as int) * (w as int) + (w as int) == (i
                    as int + 1) * (w as int)) by (nonlinear_arith)
                    requires i >= 0 && w >= 1;
            }
            let lo = i * w;
            let hi = lo + w;
            let chunk = rel_entry.substring_char(lo, hi);
            proof {
                assert(chunk@ == chunk_of(s, src.width(), i as int));
            }
            match self.numsys_in.lookup_index(chunk) {
                Ok(idx) => {
                    proof {
                        lemma_first_index_of_distinct(src.digits, idx as int);
                    }
                    bcd.push(idx);
                },
                Err(e) => {
                    proof {
                        lemma_first_index_of_spec(src.digits, chunk@);
                        let f = first_index_of(src.digits, chunk@);
                        if f >= 0 {
                            assert(src.digits.contains(chunk@));
                        }
                        assert(!all_chunks_found(s, src));
                    }
                    return Err(e);
                },
            }
            i += 1;
        }
        proof {
            assert(all_chunks_found(s, src));
            assert(usize_ints(bcd@) =~= idxs);
            assert(digits_nonneg(idxs)) by {
                assert forall|j: int| 0 <= j < idxs.len() implies #[trigger] idxs[j] >= 0 by {
                    assert(idxs[j] == bcd@[j] as int);
                }
            }
        }
        let ghost v0 = value_be(idxs, radix as int);

        // reversed shift-adjust: halve the digit array until it is zero,
        // collecting the remainders as pivot bits
        let mut pivot: Vec<bool> = Vec::new();
        proof {
            assert(bits_ints(pivot@) =~= Seq::<int>::empty());
            assert(value_acc(Seq::<int>::empty(), 2, v0) == v0);
            assert(digits_nonneg(idxs)) by {
                assert forall|j: int| 0 <= j < idxs.len() implies #[trigger] idxs[j] >= 0 by {
                    assert(idxs[j] == bcd@[j] as int);
                }
            }
            lemma_value_acc_lower(idxs, radix as int, 0);
        }
        loop
            invariant
                2 <= radix,
                radix <= crate::alphabet::MAX_RADIX,
                forall|j: int| 0 <= j < bcd@.len() ==> (#[trigger] bcd@[j]) < radix,
                value_be(usize_ints(bcd@), radix as int) >= 0,
                value_acc(bits_ints(pivot@), 2, value_be(usize_ints(bcd@), radix as int)) == v0,
            ensures
                value_acc(bits_ints(pivot@), 2, 0) == v0,
            decreases value_be(usize_ints(bcd@), radix as int),
        {
            let ghost before = usize_ints(bcd@);
            let ghost p_old = pivot@;
            let (bit, end) = div2_pass(&mut bcd, radix);
            let ghost after = usize_ints(bcd@);
            pivot.insert(0, bit);
            proof {
                let b: int = if bit { 1int } else { 0int };
                assert(value_be(before, radix as int) == 2 * value_be(after, radix as int) + b);
                assert(pivot@ =~= seq![bit] + p_old);
                assert(bits_ints(pivot@)[0] == b);
                assert(bits_ints(pivot@).first() == b);
                assert(bits_ints(pivot@).drop_first() =~= bits_ints(p_old));
                assert(value_acc(bits_ints(pivot@), 2, value_be(after, radix as int))
                    == value_acc(
                    bits_ints(p_old),
                    2,
                    value_be(after, radix as int) * 2 + b,
                ));
                assert(value_be(after, radix as int) * 2 + b == value_be(before, radix as int));
                assert(digits_nonneg(after)) by {
                    assert forall|j: int| 0 <= j < after.len() implies #[trigger] after[j] >= 0 by {
                        assert(after[j] == bcd@[j] as int);
                    }
                }
                lemma_value_acc_lower(after, radix as int, 0);
            }
            if end {
                proof {
                    assert(value_be(usize_ints(bcd@), radix as int) == 0);
                }
                break;
            }
            proof {
                assert(value_be(after, radix as int) >= 1);
            }
        }
        proof {
            assert(bits_value(pivot@) == v0);
        }
        Ok(pivot)
    }

    /// Computes the binary pivot into the target system's representation by
    /// digit-wise doubling and bit addition.
    fn shift_adjust(&self, pivot: Vec<bool>) -> (r: String)
        requires
            self.wf(),
        ensures
            r@ == render_value(self.dst(), bits_value(pivot@)),
    {
        let ghost dst = self.dst();
        proof {
            self.numsys_out.lemma_wf_valid();
        }
        let radix = self.numsys_out.len();
        let mut bcdlike: Vec<usize> = Vec::new();
        bcdlike.push(0);
        proof {
            assert(bcdlike@ =~= seq![0usize]);
            assert(usize_ints(bcdlike@) =~= seq![0int]);
            assert(value_le(Seq::<int>::empty(), radix as int) == 0);
            assert(usize_ints(bcdlike@).drop_first() =~= Seq::<int>::empty());
            assert(value_le(usize_ints(bcdlike@), radix as int) == 0 + radix as int * 0);
            assert(pivot@.take(0) =~= Seq::<bool>::empty());
            assert(bits_ints(Seq::<bool>::empty()) =~= Seq::<int>::empty());
            assert(value_acc(Seq::<int>::empty(), 2, 0) == 0);
        }

        let mut j: usize = 0;
        while j < pivot.len()
            invariant
                self.wf(),
                dst == self.dst(),
                radix as int == dst.radix(),
                2 <= radix,
                radix <= crate::alphabet::MAX_RADIX,
                0 <= j <= pivot@.len(),
                le_array_wf(bcdlike@, radix as int),
                value_le(usize_ints(bcdlike@), radix as int) == bits_value(pivot@.take(j as int)),
            decreases pivot@.len() - j,
        {
            let bit = pivot[j];
            let carry: usize = if bit {
                1
            } else {
                0
            };
            let ghost before = bcdlike@;
            double_add(&mut bcdlike, 0, carry, radix);
            proof {
                let b: int = carry as int;
                assert(usize_ints(before).skip(0) =~= usize_ints(before));
                assert(usize_ints(bcdlike@).skip(0) =~= usize_ints(bcdlike@));
                assert(value_le(usize_ints(bcdlike@), radix as int) == 2 * value_le(
                    usize_ints(before),
                    radix as int,
                ) + b);
                assert(pivot@.take(j as int + 1) =~= pivot@.take(j as int).push(pivot@[j as int]));
                lemma_value_acc_push(bits_ints(pivot@.take(j as int)), 2, 0, b);
                assert(bits_ints(pivot@.take(j as int + 1)) =~= bits_ints(
                    pivot@.take(j as int),
                ).push(b));
                // canonicity is preserved
                if bcdlike@.len() == before.len() {
                    if before.len() > 1 {
                        assert(bcdlike@.last() >= 1);
                    }
                } else {
                    assert(bcdlike@.last() == 1);
                }
            }
            j += 1;
        }
        proof {
            assert(pivot@.take(pivot@.len() as int) =~= pivot@);
        }

        // emit the target prefix and the digits, most significant first
        let ghost v = bits_value(pivot@);
        proof {
            let ds = usize_ints(bcdlike@);
            assert(digits_nonneg(ds));
            lemma_value_le_nonneg(ds, radix as int);
            assert(canonical_le(ds, radix as int)) by {
                if bcdlike@.len() > 1 {
                    assert(ds.last() == bcdlike@.last() as int);
                }
            }
            lemma_repr_le_unique(ds, radix as int);
            assert(ds == repr_le(v, radix as int));
        }
        let ghost outds = repr_le(v, dst.radix()).reverse().map_values(|d: int| dst.digits[d]);
        let mut ret = self.numsys_out.get_prefix();
        let total = bcdlike.len();
        let mut idx: usize = total;
        while idx > 0
            invariant
                self.wf(),
                dst == self.dst(),
                radix as int == dst.radix(),
                total == bcdlike@.len(),
                0 <= idx <= total,
                forall|k: int| 0 <= k < bcdlike@.len() ==> (#[trigger] bcdlike@[k]) < radix,
                usize_ints(bcdlike@) == repr_le(v, dst.radix()),
                outds == repr_le(v, dst.radix()).reverse().map_values(|d: int| dst.digits[d]),
                ret@ == dst.prefix + concat_digits(outds.take(total - idx)),
            decreases idx,
        {
            idx -= 1;
            let dig = self.numsys_out.lookup_digit(bcdlike[idx]);
            ret.append(dig.as_str());
            proof {
                let k = total - idx - 1;
                let rev = repr_le(v, dst.radix()).reverse();
                assert(rev[k] == repr_le(v, dst.radix())[idx as int]);
                assert(outds[k] == dst.digits[bcdlike@[idx as int] as int]);
                assert(outds.take(k + 1).drop_last() =~= outds.take(k));
                assert(concat_digits(outds.take(k + 1)) == concat_digits(outds.take(k))
                    + outds[k]);
            }
        }
        proof {
            assert(outds.take(total as int) =~= outds);
        }
        ret
    }
}

/// One long-division-by-two sweep over a big-endian digit array: each digit
/// becomes `(digit + carry * radix) / 2`, the final remainder is the emitted
/// bit, and the sweep reports whether every digit is now zero.
fn div2_pass(bcd: &mut Vec<usize>, radix: usize) -> (r: (bool, bool))
    requires
        2 <= radix,
        radix <= crate::alphabet::MAX_RADIX,
        forall|j: int| 0 <= j < old(bcd)@.len() ==> (#[trigger] old(bcd)@[j]) < radix,
    ensures
        final(bcd)@.len() == old(bcd)@.len(),
        forall|j: int| 0 <= j < final(bcd)@.len() ==> (#[trigger] final(bcd)@[j]) < radix,
        value_be(usize_ints(old(bcd)@), radix as int) == 2 * value_be(
            usize_ints(final(bcd)@),
            radix as int,
        ) + (if r.0 {
            1int
        } else {
            0int
        }),
        r.1 == (value_be(usize_ints(final(bcd)@), radix as int) == 0),
{
    let ghost olds = usize_ints(old(bcd)@);
    let mut rel: usize = 0;
    let mut end: bool = true;
    let mut idx: usize = 0;
    while idx < bcd.len()
        invariant
            2 <= radix,
            radix <= crate::alphabet::MAX_RADIX,
            bcd@.len() == old(bcd)@.len(),
            olds == usize_ints(old(bcd)@),
            0 <= idx <= bcd@.len(),
            rel <= 1,
            forall|j: int| idx <= j < bcd@.len() ==> bcd@[j] == old(bcd)@[j],
            forall|j: int| 0 <= j < bcd@.len() ==> (#[trigger] bcd@[j]) < radix,
            value_acc(olds.take(idx as int), radix as int, 0) == 2 * value_acc(
                usize_ints(bcd@).take(idx as int),
                radix as int,
                0,
            ) + rel as int,
            end == (forall|j: int| 0 <= j < idx ==> (#[trigger] bcd@[j]) == 0),
        decreases bcd@.len() - idx,
    {
        let ghost pre = usize_ints(bcd@);
        let ghost preu = bcd@;
        let d = bcd[idx];
        let nb = d + rel * radix;
        let q = nb / 2;
        let newrel = nb % 2;
        bcd[idx] = q;
        let prevend = end;
        end = if q > 0 {
            false
        } else {
            end
        };
        proof {
            let r_int = radix as int;
            let cur = usize_ints(bcd@);
            assert(cur =~= pre.update(idx as int, q as int));
            assert(cur.take(idx as int) =~= pre.take(idx as int));
            assert(olds.take(idx as int + 1) =~= olds.take(idx as int).push(olds[idx as int]));
            assert(cur.take(idx as int + 1) =~= cur.take(idx as int).push(q as int));
            lemma_value_acc_push(olds.take(idx as int), r_int, 0, olds[idx as int]);
            lemma_value_acc_push(cur.take(idx as int), r_int, 0, q as int);
            let no = value_acc(olds.take(idx as int), r_int, 0);
            let nn = value_acc(cur.take(idx as int), r_int, 0);
            assert(olds[idx as int] == d as int);
            assert(nb as int == d as int + rel as int * r_int);
            assert(nb as int == 2 * (q as int) + newrel as int);
            assert((2 * nn + rel as int) * r_int == 2 * (nn * r_int) + rel as int * r_int)
                by (nonlinear_arith);
            assert(value_acc(olds.take(idx as int + 1), r_int, 0) == no * r_int + d as int);
            assert(no * r_int + d as int == 2 * (nn * r_int + q as int) + newrel as int);
            assert(bcd@[idx as int] == q);
            assert forall|j: int| 0 <= j < idx as int implies bcd@[j] == pre[j] by {
                assert(cur[j] == pre[j]);
            }
            assert forall|j: int| 0 <= j < idx as int implies #[trigger] bcd@[j]
                == preu[j] by {
                assert(cur[j] == pre[j]);
            }
            if q == 0 && prevend {
                assert forall|j: int| 0 <= j < idx as int + 1 implies (#[trigger] bcd@[j])
                    == 0 by {
                    if j < idx as int {
                        assert(preu[j] == 0);
                    }
                }
            }
            if q == 0 && !prevend {
                let jw = choose|j: int| 0 <= j < idx as int && (#[trigger] preu[j]) != 0;
                assert(bcd@[jw] != 0);
            }
        }
        rel = newrel;
        idx += 1;
    }
    proof {
        assert(olds.take(idx as int) =~= olds);
        assert(usize_ints(bcd@).take(idx as int) =~= usize_ints(bcd@));
        let cur = usize_ints(bcd@);
        if end {
            assert forall|j: int| 0 <= j < cur.len() implies #[trigger] cur[j] == 0 by {
                assert(bcd@[j] == 0);
            }
            lemma_value_be_all_zero(cur, radix as int);
        } else {
            let j = choose|j: int| 0 <= j < bcd@.len() && (#[trigger] bcd@[j]) != 0;
            assert(digits_nonneg(cur));
            assert(cur[j] >= 1);
            lemma_value_be_pos(cur, radix as int, j);
        }
    }
    (rel == 1, end)
}

/// Doubles the little-endian digit array from position `i` upward and adds
/// `carry` at position `i`, appending a new most-significant digit when a
/// carry survives past the top.
fn double_add(v: &mut Vec<usize>, i: usize, carry: usize, radix: usize)
    requires
        2 <= radix,
        radix <= crate::alphabet::MAX_RADIX,
        i <= old(v)@.len(),
        carry <= 1,
        forall|j: int| 0 <= j < old(v)@.len() ==> (#[trigger] old(v)@[j]) < radix,
    ensures
        final(v)@.len() >= old(v)@.len(),
        final(v)@.take(i as int) == old(v)@.take(i as int),
        forall|j: int| 0 <= j < final(v)@.len() ==> (#[trigger] final(v)@[j]) < radix,
        value_le(usize_ints(final(v)@).skip(i as int), radix as int) == 2 * value_le(
            usize_ints(old(v)@).skip(i as int),
            radix as int,
        ) + carry as int,
        final(v)@.len() == old(v)@.len() || (final(v)@.len() == old(v)@.len() + 1
            && final(v)@.last() == 1),
        (old(v)@.len() > i && old(v)@.last() >= 1 && final(v)@.len() == old(v)@.len())
            ==> final(v)@.last() >= 1,
    decreases old(v)@.len() - i,
{
    if i == v.len() {
        proof {
            assert(usize_ints(old(v)@).skip(i as int) =~= Seq::<int>::empty());
            assert(value_le(Seq::<int>::empty(), radix as int) == 0);
        }
        if carry == 1 {
            v.push(1);
            proof {
                assert(usize_ints(v@).skip(i as int) =~= seq![1int]);
                assert(usize_ints(v@).skip(i as int).first() == 1);
                assert(usize_ints(v@).skip(i as int).drop_first() =~= Seq::<int>::empty());
                assert(value_le(usize_ints(v@).skip(i as int), radix as int) == 1 + radix as int
                    * 0);
                assert(v@.take(i as int) =~= old(v)@.take(i as int));
            }
        }
    } else {
        let d = v[i];
        let val = 2 * d + carry;
        let ghost pre = old(v)@;
        if val >= radix {
            let q = val - radix;
            v[i] = q;
            let ghost mid = v@;
            double_add(v, i + 1, 1, radix);
            proof {
                lemma_double_add_step(pre, mid, v@, i as int, carry as int, q, 1, radix as int);
                if i as int + 1 < pre.len() {
                    assert(mid.last() == pre.last());
                } else {
                    // the carry out of the top digit forces a push
                    if v@.len() == pre.len() {
                        assert(usize_ints(v@).skip(i as int + 1) =~= Seq::<int>::empty());
                        assert(usize_ints(mid).skip(i as int + 1) =~= Seq::<int>::empty());
                        assert(false);
                    }
                }
            }
        } else {
            v[i] = val;
            let ghost mid = v@;
            double_add(v, i + 1, 0, radix);
            proof {
                lemma_double_add_step(pre, mid, v@, i as int, carry as int, val, 0, radix as int);
                if i as int + 1 < pre.len() {
                    assert(mid.last() == pre.last());
                } else {
                    if v@.len() == pre.len() {
                        assert(v@ =~= v@.take(i as int + 1));
                        assert(mid =~= mid.take(i as int + 1));
                        assert(v@.last() == mid[i as int]);
                    }
                }
            }
        }
    }
}

/// The arithmetic of one digit position of `double_add`: writing
/// `2*pre[i] + carry - cout*radix` at position `i` and doubling the suffix
/// above it with carry `cout` doubles the whole suffix and adds `carry`.
proof fn lemma_double_add_step(
    pre: Seq<usize>,
    mid: Seq<usize>,
    fin: Seq<usize>,
    i: int,
    carry: int,
    q: usize,
    cout: int,
    radix: int,
)
    requires
        radix >= 2,
        0 <= i < pre.len(),
        mid == pre.update(i, q),
        q < radix,
        2 * pre[i] + carry == q + cout * radix,
        fin.len() >= mid.len(),
        fin.take(i + 1) == mid.take(i + 1),
        value_le(usize_ints(fin).skip(i + 1), radix) == 2 * value_le(
            usize_ints(mid).skip(i + 1),
            radix,
        ) + cout,
    ensures
        fin.take(i) == pre.take(i),
        value_le(usize_ints(fin).skip(i), radix) == 2 * value_le(usize_ints(pre).skip(i), radix)
            + carry,
{
    assert(fin.take(i) =~= pre.take(i)) by {
        assert forall|k: int| 0 <= k < i implies fin.take(i)[k] == pre.take(i)[k] by {
            assert(fin.take(i + 1) =~= mid.take(i + 1));
            assert(fin.take(i + 1)[k] == fin[k]);
            assert(mid.take(i + 1)[k] == mid[k]);
            assert(mid[k] == pre[k]);
        }
    }
    let finsuf = usize_ints(fin).skip(i);
    let presuf = usize_ints(pre).skip(i);
    let midsuf1 = usize_ints(mid).skip(i + 1);
    let presuf1 = usize_ints(pre).skip(i + 1);
    assert(midsuf1 =~= presuf1);
    assert(fin.take(i + 1) =~= mid.take(i + 1));
    assert(fin.take(i + 1)[i] == fin[i]);
    assert(mid.take(i + 1)[i] == mid[i]);
    assert(fin[i] == mid[i] && mid[i] == q);
    assert(finsuf.first() == usize_ints(fin)[i]);
    assert(finsuf.first() == q as int);
    assert(finsuf.drop_first() =~= usize_ints(fin).skip(i + 1));
    assert(presuf.first() == pre[i] as int);
    assert(presuf.drop_first() =~= presuf1);
    let t = value_le(presuf1, radix);
    assert(value_le(finsuf, radix) == q + radix * (2 * t + cout));
    assert(q + radix * (2 * t + cout) == q + cout * radix + 2 * (radix * t)) by (nonlinear_arith);
    assert(value_le(presuf, radix) == pre[i] + radix * t);
    assert(2 * (pre[i] + radix * t) + carry == 2 * pre[i] + carry + 2 * (radix * t));
}

/// Rendering a value canonically and parsing the result in the same system
/// gives the value back.
pub proof fn lemma_parse_render(sys: NsView, v: int)
    requires
        sys.valid(),
        v >= 0,
    ensures
        parse_value(sys, render_value(sys, v)) == Some(v),
{
    let r = sys.radix();
    let w = sys.width();
    lemma_repr_le_canonical(v, r);
    let rep = repr_le(v, r);
    let rev = rep.reverse();
    assert(rev.len() == rep.len());
    assert forall|k: int| 0 <= k < rev.len() implies 0 <= #[trigger] rev[k] < r by {
        assert(rev[k] == rep[rep.len() - 1 - k]);
    }
    let ds = rev.map_values(|d: int| sys.digits[d]);
    assert forall|k: int| 0 <= k < ds.len() implies (#[trigger] ds[k]).len() == w by {
        assert(ds[k] == sys.digits[rev[k]]);
    }
    crate::numeral::lemma_concat_digits_len(ds, w);
    let c = concat_digits(ds);
    assert(c.len() == rev.len() * w);
    assert(c.len() >= w) by (nonlinear_arith)
        requires c.len() == rev.len() * w && rev.len() >= 1 && w >= 1;
    let rendered = render_value(sys, v);
    assert(rendered == sys.prefix + c);
    let stripped = strip_prefix(sys.prefix, rendered);
    if sys.prefix.len() == 0 {
        assert(rendered =~= c);
        assert(stripped == c);
    } else {
        assert(rendered.len() > sys.prefix.len());
        assert(rendered.take(sys.prefix.len() as int) =~= sys.prefix);
        assert(rendered.skip(sys.prefix.len() as int) =~= c);
        assert(stripped == c);
    }
    vstd::arithmetic::div_mod::lemma_fundamental_div_mod_converse(
        rev.len() * w,
        w,
        rev.len() as int,
        0,
    );
    assert(chunk_count(c, w) == rev.len());
    assert forall|i: int| 0 <= i < rev.len() implies #[trigger] chunk_of(c, w, i) == ds[i] by {
        crate::numeral::lemma_concat_digits_chunk(ds, w, i);
    }
    assert forall|i: int| 0 <= i < rev.len() implies first_index_of(
        sys.digits,
        #[trigger] chunk_of(c, w, i),
    ) == rev[i] by {
        assert(ds[i] == sys.digits[rev[i]]);
        lemma_first_index_of_distinct(sys.digits, rev[i]);
    }
    assert(all_chunks_found(c, sys));
    assert(chunk_indices(c, sys) =~= rev);
    lemma_value_be_reverse(rep, r);
    assert(value_be(rev, r) == value_le(rep, r));
    assert(parse_value(sys, rendered) == Some(v));
}

/// Round-trip: converting a digit string of system `a` to system `b` and the
/// result back to `a` reproduces the canonical (leading-zero-suppressed)
/// representation of the same integer in `a`.
pub proof fn lemma_round_trip(a: NsView, b: NsView, entry: Seq<char>, v: int)
    requires
        a.valid(),
        b.valid(),
        parse_value(a, entry) == Some(v),
    ensures
        v >= 0,
        convert_spec(a, b, entry) == Some(render_value(b, v)),
        convert_spec(b, a, render_value(b, v)) == Some(render_value(a, v)),
{
    let s = strip_prefix(a.prefix, entry);
    let idxs = chunk_indices(s, a);
    assert(digits_nonneg(idxs)) by {
        assert forall|i: int| 0 <= i < idxs.len() implies #[trigger] idxs[i] >= 0 by {
            assert(first_index_of(a.digits, chunk_of(s, a.width(), i)) >= 0);
        }
    }
    lemma_value_acc_lower(idxs, a.radix(), 0);
    lemma_parse_render(b, v);
}

} // verus!
