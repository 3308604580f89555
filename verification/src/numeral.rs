//! The mathematics of positional numerals: the value of a digit sequence in a
//! given radix, the canonical (leading-zero-free) representation of a value,
//! and the Cartesian-product construction of combined digit sets.

use vstd::prelude::*;

verus! {

/// Value of a big-endian digit sequence in radix `radix`, folded left onto the
/// accumulator `acc`: the digit at position 0 is the most significant.
pub open spec fn value_acc(digits: Seq<int>, radix: int, acc: int) -> int
    decreases digits.len(),
{
    if digits.len() == 0 {
        acc
    } else {
        value_acc(digits.drop_first(), radix, acc * radix + digits.first())
    }
}

/// Value of a big-endian digit sequence in radix `radix`.
pub open spec fn value_be(digits: Seq<int>, radix: int) -> int {
    value_acc(digits, radix, 0)
}

/// Value of a little-endian digit sequence in radix `radix`: the digit at
/// position 0 is the least significant.
pub open spec fn value_le(digits: Seq<int>, radix: int) -> int
    decreases digits.len(),
{
    if digits.len() == 0 {
        0
    } else {
        digits.first() + radix * value_le(digits.drop_first(), radix)
    }
}

/// Every digit lies in `0 .. radix`.
pub open spec fn digits_in_range(digits: Seq<int>, radix: int) -> bool {
    forall|i: int| 0 <= i < digits.len() ==> 0 <= #[trigger] digits[i] < radix
}

/// The canonical little-endian representation of `v` in radix `radix`:
/// no digit beyond the most significant one, and a single zero digit for zero.
pub open spec fn repr_le(v: int, radix: int) -> Seq<int>
    decreases v,
    when v >= 0 && radix >= 2
    via repr_le_decreases
{
    if v < radix {
        seq![v]
    } else {
        seq![v % radix] + repr_le(v / radix, radix)
    }
}

#[via_fn]
proof fn repr_le_decreases(v: int, radix: int) {
    if v >= radix {
        vstd::arithmetic::div_mod::lemma_div_decreases(v, radix);
        vstd::arithmetic::div_mod::lemma_div_pos_is_pos(v, radix);
    }
}

/// A little-endian digit sequence is in canonical form: nonempty, every digit
/// in range, and no superfluous most-significant zero digit.
pub open spec fn canonical_le(digits: Seq<int>, radix: int) -> bool {
    &&& digits.len() >= 1
    &&& digits_in_range(digits, radix)
    &&& (digits.len() > 1 ==> digits.last() != 0)
}

/// All entries of a sequence of digit strings are pairwise distinct.
pub open spec fn distinct_seqs(table: Seq<Seq<char>>) -> bool {
    forall|i: int, j: int| 0 <= i < j < table.len() ==> table[i] !== table[j]
}

/// Position of the first occurrence of `d` in `table`, or `-1` if absent.
pub open spec fn first_index_of(table: Seq<Seq<char>>, d: Seq<char>) -> int
    decreases table.len(),
{
    if table.len() == 0 {
        -1
    } else if table.first() == d {
        0
    } else {
        let rest = first_index_of(table.drop_first(), d);
        if rest < 0 {
            -1
        } else {
            rest + 1
        }
    }
}

/// Concatenation of a sequence of digit strings into one string.
pub open spec fn concat_digits(digits: Seq<Seq<char>>) -> Seq<char>
    decreases digits.len(),
{
    if digits.len() == 0 {
        Seq::empty()
    } else {
        concat_digits(digits.drop_last()) + digits.last()
    }
}

/// One step of the Cartesian-product construction: every entry of `partial`
/// extended by every entry of `class`, entries of `class` varying fastest.
pub open spec fn cross_digits(partial: Seq<Seq<char>>, class: Seq<Seq<char>>) -> Seq<Seq<char>> {
    Seq::new(
        partial.len() * class.len(),
        |k: int| partial[k / class.len() as int] + class[k % class.len() as int],
    )
}

/// The combined digit set of an ordered list of digit classes: one entry of
/// each class concatenated in class order, the first class most significant
/// (varying slowest).
pub open spec fn product_digits(classes: Seq<Seq<Seq<char>>>) -> Seq<Seq<char>>
    decreases classes.len(),
{
    if classes.len() == 0 {
        seq![Seq::<char>::empty()]
    } else {
        cross_digits(product_digits(classes.drop_last()), classes.last())
    }
}

/// The radix an alphabet built from `classes` will have: the product of the
/// class sizes.
pub open spec fn radix_of(classes: Seq<Seq<Seq<char>>>) -> int
    decreases classes.len(),
{
    if classes.len() == 0 {
        1
    } else {
        radix_of(classes.drop_last()) * classes.last().len()
    }
}

/// The character width a combined digit built from `classes` will have: the
/// sum of the class entry widths.
pub open spec fn classes_width(classes: Seq<Seq<Seq<char>>>) -> int
    decreases classes.len(),
{
    if classes.len() == 0 {
        0
    } else {
        classes_width(classes.drop_last()) + classes.last()[0].len()
    }
}

/// A single digit class is well-formed: nonempty, with entries all of one
/// positive length.
pub open spec fn valid_class(class: Seq<Seq<char>>) -> bool {
    &&& class.len() >= 1
    &&& class[0].len() >= 1
    &&& forall|i: int| 0 <= i < class.len() ==> #[trigger] class[i].len() == class[0].len()
}

/// Every class of the list is well-formed and there is at least one class.
pub open spec fn valid_classes(classes: Seq<Seq<Seq<char>>>) -> bool {
    &&& classes.len() >= 1
    &&& forall|k: int| 0 <= k < classes.len() ==> valid_class(#[trigger] classes[k])
}

/// Every digit is nonnegative.
pub open spec fn digits_nonneg(digits: Seq<int>) -> bool {
    forall|i: int| 0 <= i < digits.len() ==> #[trigger] digits[i] >= 0
}

/// Appending a digit at the least significant end multiplies the value by the
/// radix and adds the digit.
pub proof fn lemma_value_acc_push(digits: Seq<int>, radix: int, acc: int, d: int)
    ensures
        value_acc(digits.push(d), radix, acc) == value_acc(digits, radix, acc) * radix + d,
    decreases digits.len(),
{
    if digits.len() == 0 {
        assert(digits.push(d).first() == d);
        assert(digits.push(d).drop_first() =~= Seq::<int>::empty());
        assert(value_acc(Seq::<int>::empty(), radix, acc * radix + d) == acc * radix + d);
    } else {
        assert(digits.push(d).drop_first() =~= digits.drop_first().push(d));
        lemma_value_acc_push(digits.drop_first(), radix, acc * radix + digits.first(), d);
    }
}

/// Folding nonnegative digits onto a nonnegative accumulator never shrinks it.
pub proof fn lemma_value_acc_lower(digits: Seq<int>, radix: int, acc: int)
    requires
        radix >= 1,
        acc >= 0,
        digits_nonneg(digits),
    ensures
        value_acc(digits, radix, acc) >= acc,
    decreases digits.len(),
{
    if digits.len() > 0 {
        assert(acc * radix >= acc) by (nonlinear_arith)
            requires acc >= 0 && radix >= 1;
        assert(digits_nonneg(digits.drop_first()));
        lemma_value_acc_lower(digits.drop_first(), radix, acc * radix + digits.first());
    }
}

/// A sequence of zero digits has value zero.
pub proof fn lemma_value_be_all_zero(digits: Seq<int>, radix: int)
    requires
        forall|i: int| 0 <= i < digits.len() ==> #[trigger] digits[i] == 0,
    ensures
        value_be(digits, radix) == 0,
{
    lemma_value_acc_zero(digits, radix);
}

proof fn lemma_value_acc_zero(digits: Seq<int>, radix: int)
    requires
        forall|i: int| 0 <= i < digits.len() ==> #[trigger] digits[i] == 0,
    ensures
        value_acc(digits, radix, 0) == 0,
    decreases digits.len(),
{
    if digits.len() > 0 {
        lemma_value_acc_zero(digits.drop_first(), radix);
    }
}

/// A digit sequence with a positive digit somewhere has a positive value.
pub proof fn lemma_value_be_pos(digits: Seq<int>, radix: int, i: int)
    requires
        radix >= 1,
        digits_nonneg(digits),
        0 <= i < digits.len(),
        digits[i] >= 1,
    ensures
        value_be(digits, radix) >= 1,
    decreases digits.len(),
{
    if i == 0 {
        assert(digits_nonneg(digits.drop_first()));
        lemma_value_acc_lower(digits.drop_first(), radix, 0 * radix + digits.first());
    } else {
        assert(digits_nonneg(digits.drop_first()));
        assert(digits.drop_first()[i - 1] == digits[i]);
        lemma_value_acc_ge_sub(digits.drop_first(), radix, 0 * radix + digits.first(), i - 1);
    }
}

proof fn lemma_value_acc_ge_sub(digits: Seq<int>, radix: int, acc: int, i: int)
    requires
        radix >= 1,
        acc >= 0,
        digits_nonneg(digits),
        0 <= i < digits.len(),
        digits[i] >= 1,
    ensures
        value_acc(digits, radix, acc) >= 1,
    decreases digits.len(),
{
    assert(acc * radix >= acc) by (nonlinear_arith)
        requires acc >= 0 && radix >= 1;
    assert(digits_nonneg(digits.drop_first()));
    if i == 0 {
        lemma_value_acc_lower(digits.drop_first(), radix, acc * radix + digits.first());
    } else {
        assert(digits.drop_first()[i - 1] == digits[i]);
        lemma_value_acc_ge_sub(digits.drop_first(), radix, acc * radix + digits.first(), i - 1);
    }
}

/// A little-endian value of nonnegative digits is nonnegative.
pub proof fn lemma_value_le_nonneg(digits: Seq<int>, radix: int)
    requires
        radix >= 1,
        digits_nonneg(digits),
    ensures
        value_le(digits, radix) >= 0,
    decreases digits.len(),
{
    if digits.len() > 0 {
        assert(digits_nonneg(digits.drop_first()));
        lemma_value_le_nonneg(digits.drop_first(), radix);
        assert(radix * value_le(digits.drop_first(), radix) >= 0) by (nonlinear_arith)
            requires radix >= 1 && value_le(digits.drop_first(), radix) >= 0;
    }
}

/// A little-endian digit sequence whose most significant digit is positive
/// has a positive value.
pub proof fn lemma_value_le_last_pos(digits: Seq<int>, radix: int)
    requires
        radix >= 1,
        digits_nonneg(digits),
        digits.len() >= 1,
        digits.last() >= 1,
    ensures
        value_le(digits, radix) >= 1,
    decreases digits.len(),
{
    if digits.len() == 1 {
    } else {
        assert(digits_nonneg(digits.drop_first()));
        assert(digits.drop_first().last() == digits.last());
        lemma_value_le_last_pos(digits.drop_first(), radix);
        assert(radix * value_le(digits.drop_first(), radix) >= 1) by (nonlinear_arith)
            requires radix >= 1 && value_le(digits.drop_first(), radix) >= 1;
    }
}

/// The canonical representation is canonical and evaluates back to its value.
pub proof fn lemma_repr_le_canonical(v: int, radix: int)
    requires
        v >= 0,
        radix >= 2,
    ensures
        canonical_le(repr_le(v, radix), radix),
        value_le(repr_le(v, radix), radix) == v,
    decreases v,
{
    if v < radix {
        let s = repr_le(v, radix);
        assert(s == seq![v]);
        assert(s.first() == v && s.drop_first() =~= Seq::<int>::empty());
        assert(value_le(Seq::<int>::empty(), radix) == 0);
        assert(value_le(s, radix) == v + radix * 0);
        assert(forall|i: int| 0 <= i < s.len() ==> 0 <= #[trigger] s[i] < radix);
    } else {
        vstd::arithmetic::div_mod::lemma_div_decreases(v, radix);
        vstd::arithmetic::div_mod::lemma_div_pos_is_pos(v, radix);
        vstd::arithmetic::div_mod::lemma_fundamental_div_mod(v, radix);
        vstd::arithmetic::div_mod::lemma_mod_bound(v, radix);
        lemma_repr_le_canonical(v / radix, radix);
        let q = v / radix;
        assert(q >= 1) by (nonlinear_arith)
            requires radix >= 2 && q >= 0 && radix * q + v % radix == v && v >= radix
                && 0 <= v % radix < radix;
        let rest = repr_le(q, radix);
        let s = seq![v % radix] + rest;
        assert(s == repr_le(v, radix));
        assert(s.first() == v % radix && s.drop_first() =~= rest);
        assert(value_le(s, radix) == v % radix + radix * value_le(rest, radix));
        assert(value_le(s, radix) == v);
        assert(s.last() == rest.last());
        if rest.len() == 1 {
            assert(value_le(rest, radix) == rest.first() + radix * value_le(
                rest.drop_first(),
                radix,
            ));
            assert(rest.drop_first() =~= Seq::<int>::empty());
            assert(rest.last() == q);
        }
        assert(s.last() != 0);
        assert(forall|i: int|
            1 <= i < s.len() ==> #[trigger] s[i] == rest[i - 1]);
        assert(digits_in_range(s, radix));
    }
}

/// Canonical little-endian representations are unique: a canonical sequence is
/// exactly the representation of its own value.
pub proof fn lemma_repr_le_unique(digits: Seq<int>, radix: int)
    requires
        radix >= 2,
        canonical_le(digits, radix),
    ensures
        digits =~= repr_le(value_le(digits, radix), radix),
    decreases digits.len(),
{
    let v = value_le(digits, radix);
    let rest = digits.drop_first();
    assert(v == digits.first() + radix * value_le(rest, radix));
    if digits.len() == 1 {
        assert(rest.len() == 0);
        assert(value_le(rest, radix) == 0);
        assert(digits.first() == digits[0]);
        assert(v == digits.first());
        assert(v < radix);
        assert(repr_le(v, radix) == seq![v]);
        assert(digits =~= seq![digits.first()]);
    } else {
        assert(forall|i: int|
            0 <= i < rest.len() ==> #[trigger] rest[i] == digits[i + 1]);
        assert(digits_in_range(rest, radix));
        assert(digits_nonneg(rest));
        assert(rest.last() == digits.last());
        assert(canonical_le(rest, radix));
        lemma_value_le_last_pos(rest, radix);
        let w = value_le(rest, radix);
        assert(radix * w >= radix) by (nonlinear_arith)
            requires radix >= 2 && w >= 1;
        assert(digits.first() == digits[0]);
        assert(0 <= digits.first() < radix);
        assert(v >= radix);
        assert(v == w * radix + digits.first()) by (nonlinear_arith)
            requires v == digits.first() + radix * w;
        vstd::arithmetic::div_mod::lemma_fundamental_div_mod_converse(v, radix, w, digits.first());
        assert(v / radix == w && v % radix == digits.first());
        lemma_repr_le_unique(rest, radix);
        assert(repr_le(v, radix) =~= seq![v % radix] + repr_le(w, radix));
    }
}

/// Reading a little-endian sequence in big-endian order after reversal gives
/// the same value.
pub proof fn lemma_value_be_reverse(digits: Seq<int>, radix: int)
    ensures
        value_be(digits.reverse(), radix) == value_le(digits, radix),
    decreases digits.len(),
{
    if digits.len() == 0 {
        assert(digits.reverse() =~= Seq::<int>::empty());
    } else {
        let rest = digits.drop_first();
        let rev = digits.reverse();
        assert(rev =~= rest.reverse().push(digits.first()));
        lemma_value_be_reverse(rest, radix);
        lemma_value_acc_push(rest.reverse(), radix, 0, digits.first());
        assert(value_be(rev, radix) == value_le(rest, radix) * radix + digits.first());
        assert(value_le(digits, radix) == digits.first() + radix * value_le(rest, radix));
        assert(value_le(rest, radix) * radix == radix * value_le(rest, radix)) by (nonlinear_arith);
    }
}

/// Full characterisation of `first_index_of`: `-1` exactly when absent, and
/// otherwise the first position holding the digit string.
pub proof fn lemma_first_index_of_spec(table: Seq<Seq<char>>, d: Seq<char>)
    ensures
        first_index_of(table, d) == -1 ==> forall|j: int|
            0 <= j < table.len() ==> #[trigger] table[j] !== d,
        first_index_of(table, d) != -1 ==> {
            &&& 0 <= first_index_of(table, d) < table.len()
            &&& table[first_index_of(table, d)] == d
            &&& forall|j: int| 0 <= j < first_index_of(table, d) ==> #[trigger] table[j] !== d
        },
    decreases table.len(),
{
    if table.len() > 0 && table.first() !== d {
        lemma_first_index_of_spec(table.drop_first(), d);
        assert(forall|j: int|
            1 <= j < table.len() ==> #[trigger] table[j] == table.drop_first()[j - 1]);
    }
}

/// In a table of pairwise distinct entries, `first_index_of` recovers the
/// position of any entry.
pub proof fn lemma_first_index_of_distinct(table: Seq<Seq<char>>, j: int)
    requires
        distinct_seqs(table),
        0 <= j < table.len(),
    ensures
        first_index_of(table, table[j]) == j,
{
    lemma_first_index_of_spec(table, table[j]);
    let f = first_index_of(table, table[j]);
    if f == -1 {
        assert(table[j] !== table[j]);
    }
}

/// Concatenating digit strings of one common width `w` yields a string of
/// `digits.len() * w` characters.
pub proof fn lemma_concat_digits_len(digits: Seq<Seq<char>>, w: int)
    requires
        forall|i: int| 0 <= i < digits.len() ==> (#[trigger] digits[i]).len() == w,
    ensures
        concat_digits(digits).len() == digits.len() * w,
    decreases digits.len(),
{
    if digits.len() == 0 {
    } else {
        let head = digits.drop_last();
        assert(forall|i: int| 0 <= i < head.len() ==> (#[trigger] head[i]).len() == w);
        lemma_concat_digits_len(head, w);
        assert((digits.len() - 1) * w + w == digits.len() * w) by (nonlinear_arith);
    }
}

/// Within the concatenation of uniform-width digit strings, the `i`-th chunk
/// of `w` characters is the `i`-th digit string.
pub proof fn lemma_concat_digits_chunk(digits: Seq<Seq<char>>, w: int, i: int)
    requires
        w >= 0,
        forall|k: int| 0 <= k < digits.len() ==> (#[trigger] digits[k]).len() == w,
        0 <= i < digits.len(),
    ensures
        concat_digits(digits).subrange(i * w, (i + 1) * w) =~= digits[i],
    decreases digits.len(),
{
    lemma_concat_digits_len(digits, w);
    let head = digits.drop_last();
    assert(forall|k: int| 0 <= k < head.len() ==> (#[trigger] head[k]).len() == w);
    lemma_concat_digits_len(head, w);
    assert((i + 1) * w == i * w + w) by (nonlinear_arith);
    assert((i + 1) * w <= digits.len() * w) by (nonlinear_arith)
        requires w >= 0 && i + 1 <= digits.len();
    assert(concat_digits(digits) == concat_digits(head) + digits.last());
    if i == digits.len() - 1 {
        assert(head.len() * w == i * w);
        assert forall|k: int| 0 <= k < w implies #[trigger] concat_digits(digits)[i * w + k]
            == digits[i][k] by {
            assert(concat_digits(digits)[i * w + k] == digits.last()[i * w + k - head.len() * w]);
        }
        assert(concat_digits(digits).subrange(i * w, (i + 1) * w) =~= digits[i]);
    } else {
        lemma_concat_digits_chunk(head, w, i);
        assert((i + 1) * w <= head.len() * w) by (nonlinear_arith)
            requires w >= 0 && i + 1 <= head.len();
        let sub = concat_digits(head).subrange(i * w, (i + 1) * w);
        assert forall|k: int| 0 <= k < w implies #[trigger] concat_digits(digits)[i * w + k]
            == digits[i][k] by {
            assert(i * w + k < head.len() * w);
            assert(concat_digits(digits)[i * w + k] == concat_digits(head)[i * w + k]);
            assert(sub[k] == concat_digits(head)[i * w + k]);
            assert(sub[k] == head[i][k]);
        }
        assert(concat_digits(digits).subrange(i * w, (i + 1) * w) =~= digits[i]);
    }
}

/// Splitting a concatenation at a known prefix length recovers both parts.
pub proof fn lemma_concat_split(a1: Seq<char>, b1: Seq<char>, a2: Seq<char>, b2: Seq<char>)
    requires
        a1 + b1 == a2 + b2,
        a1.len() == a2.len(),
    ensures
        a1 == a2,
        b1 == b2,
{
    assert(a1 =~= (a1 + b1).subrange(0, a1.len() as int));
    assert(a2 =~= (a2 + b2).subrange(0, a2.len() as int));
    assert(b1 =~= (a1 + b1).subrange(a1.len() as int, (a1 + b1).len() as int));
    assert(b2 =~= (a2 + b2).subrange(a2.len() as int, (a2 + b2).len() as int));
}

/// The combined digit set has exactly `radix_of(classes)` entries.
pub proof fn lemma_product_digits_len(classes: Seq<Seq<Seq<char>>>)
    ensures
        product_digits(classes).len() == radix_of(classes),
        radix_of(classes) >= 0,
    decreases classes.len(),
{
    if classes.len() > 0 {
        lemma_product_digits_len(classes.drop_last());
    }
}

/// Every combined digit has width `classes_width(classes)`.
pub proof fn lemma_product_digits_width(classes: Seq<Seq<Seq<char>>>, k: int)
    requires
        forall|c: int| 0 <= c < classes.len() ==> valid_class(#[trigger] classes[c]),
        0 <= k < product_digits(classes).len(),
    ensures
        product_digits(classes)[k].len() == classes_width(classes),
    decreases classes.len(),
{
    if classes.len() == 0 {
    } else {
        let head = classes.drop_last();
        let class = classes.last();
        let partial = product_digits(head);
        let m = class.len() as int;
        lemma_product_digits_len(head);
        vstd::arithmetic::div_mod::lemma_fundamental_div_mod(k, m);
        vstd::arithmetic::div_mod::lemma_mod_bound(k, m);
        assert(0 <= k / m < partial.len()) by (nonlinear_arith)
            requires m >= 1 && 0 <= k < partial.len() * m && k / m * m + k % m == k
                && 0 <= k % m < m;
        lemma_product_digits_width(head, k / m);
        assert(class[k % m].len() == class[0].len());
    }
}

/// A well-formed class list yields digits of positive width.
pub proof fn lemma_classes_width_pos(classes: Seq<Seq<Seq<char>>>)
    requires
        valid_classes(classes),
    ensures
        classes_width(classes) >= 1,
    decreases classes.len(),
{
    assert(classes.last() == classes[classes.len() - 1]);
    assert(valid_class(classes.last()));
    if classes.len() == 1 {
        assert(classes.drop_last() =~= Seq::<Seq<Seq<char>>>::empty());
        assert(classes_width(Seq::<Seq<Seq<char>>>::empty()) == 0);
        assert(classes_width(classes) == classes.last()[0].len());
    } else {
        let head = classes.drop_last();
        assert(forall|k: int| 0 <= k < head.len() ==> #[trigger] head[k] == classes[k]);
        assert(valid_classes(head));
        lemma_classes_width_pos(head);
    }
}

/// If every class has pairwise distinct entries, the combined digit set is
/// pairwise distinct.
pub proof fn lemma_product_digits_distinct(classes: Seq<Seq<Seq<char>>>)
    requires
        forall|c: int| 0 <= c < classes.len() ==> valid_class(#[trigger] classes[c]),
        forall|c: int| 0 <= c < classes.len() ==> distinct_seqs(#[trigger] classes[c]),
    ensures
        distinct_seqs(product_digits(classes)),
    decreases classes.len(),
{
    if classes.len() == 0 {
    } else {
        let head = classes.drop_last();
        let class = classes.last();
        let partial = product_digits(head);
        let m = class.len() as int;
        let prod = product_digits(classes);
        lemma_product_digits_len(head);
        lemma_product_digits_distinct(head);
        assert forall|i: int, j: int| 0 <= i < j < prod.len() implies prod[i] !== prod[j] by {
            vstd::arithmetic::div_mod::lemma_fundamental_div_mod(i, m);
            vstd::arithmetic::div_mod::lemma_mod_bound(i, m);
            vstd::arithmetic::div_mod::lemma_fundamental_div_mod(j, m);
            vstd::arithmetic::div_mod::lemma_mod_bound(j, m);
            assert(0 <= i / m < partial.len() && 0 <= j / m < partial.len())
                by (nonlinear_arith)
                requires m >= 1 && 0 <= i < partial.len() * m && 0 <= j < partial.len() * m
                    && i / m * m + i % m == i && j / m * m + j % m == j && 0 <= i % m < m
                    && 0 <= j % m < m;
            lemma_product_digits_width(head, i / m);
            lemma_product_digits_width(head, j / m);
            if prod[i] == prod[j] {
                lemma_concat_split(partial[i / m], class[i % m], partial[j / m], class[j % m]);
                assert(i / m == j / m && i % m == j % m);
                assert(i == j);
            }
        }
    }
}

} // verus!

