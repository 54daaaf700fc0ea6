//! Orders on text and on counted keys.

use crate::preprocess::{KeyView, ValueKey};
use crate::text::chars_of;
use std::cmp::Ordering;
use vstd::prelude::*;

verus! {

/// Code-point lexicographic order (the order of `String`'s `Ord`): `a` sorts strictly before `b`.
pub open spec fn text_less(a: Seq<char>, b: Seq<char>) -> bool
    decreases a.len(),
{
    if a.len() == 0 {
        b.len() > 0
    } else if b.len() == 0 {
        false
    } else if a[0] != b[0] {
        char_less(a[0], b[0])
    } else {
        text_less(a.drop_first(), b.drop_first())
    }
}

/// Code-point order of two characters.
pub open spec fn char_less(x: char, y: char) -> bool {
    (x as int) < (y as int)
}

/// Three-way result of comparing two texts.
pub open spec fn text_order(a: Seq<char>, b: Seq<char>) -> Ordering {
    if text_less(a, b) {
        Ordering::Less
    } else if a == b {
        Ordering::Equal
    } else {
        Ordering::Greater
    }
}

/// Whether a float bit pattern encodes NaN (all exponent bits set, non-zero fraction).
pub open spec fn bits_are_nan(b: u32) -> bool {
    (b as int / 0x80_0000) % 0x100 == 0xff && (b as int) % 0x80_0000 != 0
}

/// Position of a non-NaN float on the number line, read from its sign-magnitude bit pattern:
/// the magnitude bits with the sign applied. Both zeros rank 0.
pub open spec fn bits_rank(b: u32) -> int {
    if b as int >= 0x8000_0000 {
        -(b as int - 0x8000_0000)
    } else {
        b as int
    }
}

/// `partial_cmp` of the floats with bit patterns `x` and `y`, with unordered pairs (a NaN on
/// either side) counted as equal.
pub open spec fn float_bits_order(x: u32, y: u32) -> Ordering {
    if bits_are_nan(x) || bits_are_nan(y) {
        Ordering::Equal
    } else if bits_rank(x) < bits_rank(y) {
        Ordering::Less
    } else if bits_rank(x) == bits_rank(y) {
        Ordering::Equal
    } else {
        Ordering::Greater
    }
}

/// Order of counted keys: numbers among themselves by float value, texts among themselves by
/// text order, and every number before every text.
pub open spec fn key_order(a: KeyView, b: KeyView) -> Ordering {
    match (a, b) {
        (KeyView::Num(x), KeyView::Num(y)) => float_bits_order(x, y),
        (KeyView::Str(x), KeyView::Str(y)) => text_order(x, y),
        (KeyView::Num(_), KeyView::Str(_)) => Ordering::Less,
        (KeyView::Str(_), KeyView::Num(_)) => Ordering::Greater,
    }
}

fn char_before(x: char, y: char) -> (r: bool)
    ensures
        r == char_less(x, y),
{
    (x as u32) < (y as u32)
}

/// Whether the float with bit pattern `b` is NaN.
pub fn nan_bits(b: u32) -> (r: bool)
    ensures
        r == bits_are_nan(b),
{
    (b / 0x80_0000) % 0x100 == 0xff && b % 0x80_0000 != 0
}

/// Whether the float with bit pattern `x` lies below the one with bit pattern `y` (for
/// non-NaN values: `x < y` as floats).
pub fn rank_before(x: u32, y: u32) -> (r: bool)
    ensures
        r == (bits_rank(x) < bits_rank(y)),
{
    let xn = x >= 0x8000_0000;
    let yn = y >= 0x8000_0000;
    if xn && yn {
        x > y
    } else if xn && !yn {
        !(x == 0x8000_0000 && y == 0)
    } else if !xn && yn {
        false
    } else {
        x < y
    }
}

fn rank_same(x: u32, y: u32) -> (r: bool)
    ensures
        r == (bits_rank(x) == bits_rank(y)),
{
    x == y || (x == 0 && y == 0x8000_0000) || (x == 0x8000_0000 && y == 0)
}

proof fn lemma_text_less_irreflexive(a: Seq<char>)
    ensures
        !text_less(a, a),
    decreases a.len(),
{
    if a.len() > 0 {
        lemma_text_less_irreflexive(a.drop_first());
    }
}

/// Law: text order is asymmetric; a text never sorts before a text that sorts before it.
pub proof fn law_text_less_asymmetric(a: Seq<char>, b: Seq<char>)
    requires
        text_less(a, b),
    ensures
        !text_less(b, a),
        a != b,
    decreases a.len(),
{
    if a.len() > 0 && b.len() > 0 && a[0] == b[0] {
        law_text_less_asymmetric(a.drop_first(), b.drop_first());
        if a == b {
            assert(a.drop_first() == b.drop_first());
        }
    }
    if a == b {
        lemma_text_less_irreflexive(a);
    }
}

/// Law: text order is total; of two different texts one sorts before the other.
pub proof fn law_text_less_total(a: Seq<char>, b: Seq<char>)
    ensures
        text_less(a, b) || a == b || text_less(b, a),
    decreases a.len(),
{
    if a.len() > 0 && b.len() > 0 && a[0] == b[0] {
        law_text_less_total(a.drop_first(), b.drop_first());
        if a.drop_first() == b.drop_first() {
            assert(a =~= seq![a[0]] + a.drop_first());
            assert(b =~= seq![b[0]] + b.drop_first());
        }
    } else if a.len() == 0 && b.len() == 0 {
        assert(a =~= b);
    } else if a.len() > 0 && b.len() > 0 {
        assert((a[0] as int) != (b[0] as int));
    }
}

/// Law: text order is transitive.
pub proof fn law_text_less_transitive(a: Seq<char>, b: Seq<char>, c: Seq<char>)
    requires
        text_less(a, b),
        text_less(b, c),
    ensures
        text_less(a, c),
    decreases a.len(),
{
    if a.len() > 0 && b.len() > 0 && c.len() > 0 && a[0] == b[0] && b[0] == c[0] {
        law_text_less_transitive(a.drop_first(), b.drop_first(), c.drop_first());
    }
}

fn common_prefix_len(a: &Vec<char>, b: &Vec<char>) -> (i: usize)
    ensures
        i <= a.len(),
        i <= b.len(),
        a@.take(i as int) == b@.take(i as int),
        i < a.len() && i < b.len() ==> a@[i as int] != b@[i as int],
{
    let mut i: usize = 0;
    while i < a.len() && i < b.len()
        invariant
            i <= a.len(),
            i <= b.len(),
            a@.take(i as int) == b@.take(i as int),
        decreases a.len() - i,
    {
        if a[i] != b[i] {
            return i;
        }
        assert(a@.take(i + 1) =~= a@.take(i as int).push(a@[i as int]));
        assert(b@.take(i + 1) =~= b@.take(i as int).push(b@[i as int]));
        i = i + 1;
    }
    i
}

proof fn lemma_text_less_after_prefix(a: Seq<char>, b: Seq<char>, i: int)
    requires
        0 <= i <= a.len(),
        i <= b.len(),
        a.take(i) == b.take(i),
    ensures
        text_less(a, b) == text_less(a.skip(i), b.skip(i)),
    decreases i,
{
    if i > 0 {
        assert(a[0] == a.take(i)[0]);
        assert(b[0] == b.take(i)[0]);
        assert(a.drop_first().take(i - 1) =~= a.take(i).drop_first());
        assert(b.drop_first().take(i - 1) =~= b.take(i).drop_first());
        lemma_text_less_after_prefix(a.drop_first(), b.drop_first(), i - 1);
        assert(a.drop_first().skip(i - 1) =~= a.skip(i));
        assert(b.drop_first().skip(i - 1) =~= b.skip(i));
    } else {
        assert(a.skip(0) =~= a);
        assert(b.skip(0) =~= b);
    }
}

/// How two texts with a common prefix of length `i` and no common next character compare.
proof fn lemma_text_order_at_difference(a: Seq<char>, b: Seq<char>, iu: usize)
    requires
        iu <= a.len(),
        (iu as int) <= b.len(),
        a.take((iu as int)) == b.take((iu as int)),
        (iu as int) < a.len() && (iu as int) < b.len() ==> a[(iu as int)] != b[(iu as int)],
    ensures
        (iu as int) < a.len() && (iu as int) < b.len() ==> (text_less(a, b) == char_less(a[(iu as int)], b[(iu as int)])),
        (iu as int) < a.len() && (iu as int) < b.len() ==> (text_less(b, a) == !char_less(a[(iu as int)], b[(iu as int)])),
        (iu as int) < a.len() && (iu as int) < b.len() ==> a != b,
        (iu as int) == a.len() && (iu as int) == b.len() ==> a == b && !text_less(a, b),
        (iu as int) == a.len() && (iu as int) < b.len() ==> text_less(a, b) && a != b,
        (iu as int) < a.len() && (iu as int) == b.len() ==> text_less(b, a) && a != b && !text_less(a, b),
{
    let i = iu as int;
    lemma_text_less_after_prefix(a, b, i);
    lemma_text_less_after_prefix(b, a, i);
    if i < a.len() && i < b.len() {
        assert(a.skip(i)[0] == a[i]);
        assert(b.skip(i)[0] == b[i]);
        assert((a[i] as int) != (b[i] as int));
        if a == b {
            assert(a[i] == b[i]);
        }
    }
    if i == a.len() && i == b.len() {
        assert(a =~= a.take(i));
        assert(b =~= b.take(i));
        lemma_text_less_irreflexive(a);
    }
    if i == a.len() && i < b.len() {
        assert(a.skip(i).len() == 0);
        if a == b {
            assert(a.len() == b.len());
        }
    }
    if i < a.len() && i == b.len() {
        assert(b.skip(i).len() == 0);
        assert(a.skip(i).len() > 0);
        if a == b {
            assert(a.len() == b.len());
        }
    }
}

/// Text order of two strings (as `String::cmp`).
pub fn text_cmp(a: &str, b: &str) -> (r: Ordering)
    ensures
        r == text_order(a@, b@),
{
    let av = chars_of(a);
    let bv = chars_of(b);
    let i = common_prefix_len(&av, &bv);
    proof {
        lemma_text_order_at_difference(a@, b@, i);
    }
    if i < av.len() && i < bv.len() {
        if char_before(av[i], bv[i]) {
            Ordering::Less
        } else {
            Ordering::Greater
        }
    } else if i == av.len() && i == bv.len() {
        Ordering::Equal
    } else if i == av.len() {
        Ordering::Less
    } else {
        Ordering::Greater
    }
}

/// Sort order of counted keys.
pub fn key_cmp_for_sort(a: &ValueKey, b: &ValueKey) -> (r: Ordering)
    ensures
        r == key_order(a@, b@),
{
    match (a, b) {
        (ValueKey::Num(x), ValueKey::Num(y)) => {
            if nan_bits(*x) || nan_bits(*y) {
                Ordering::Equal
            } else if rank_before(*x, *y) {
                Ordering::Less
            } else if rank_same(*x, *y) {
                Ordering::Equal
            } else {
                Ordering::Greater
            }
        },
        (ValueKey::Str(x), ValueKey::Str(y)) => text_cmp(x.as_str(), y.as_str()),
        (ValueKey::Num(_), ValueKey::Str(_)) => Ordering::Less,
        (ValueKey::Str(_), ValueKey::Num(_)) => Ordering::Greater,
    }
}


/// `a` sorts strictly before `b` in key order.
pub open spec fn key_precedes(a: KeyView, b: KeyView) -> bool {
    key_order(a, b) == Ordering::Less
}

/// Whether `a` sorts strictly before `b` (by `key_cmp_for_sort`).
pub fn key_sorts_before(a: &ValueKey, b: &ValueKey) -> (r: bool)
    ensures
        r == key_precedes(a@, b@),
{
    match key_cmp_for_sort(a, b) {
        Ordering::Less => true,
        _ => false,
    }
}

}
