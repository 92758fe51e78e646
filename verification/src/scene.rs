//! Picking the surface that a ray meets first.
//!
//! Every surface of a scene reports where along the ray it is met, if at
//! all. The scene keeps the report that lies nearest within the interval the
//! caller asks about. Ray parameters reach this module as distance keys:
//! signed integers that order exactly as the parameters do.

use vstd::prelude::*;

verus! {

/// The bit that holds the sign in a sign-and-magnitude word of 64 bits.
pub const SIGN_BIT: u64 = 0x8000_0000_0000_0000;

/// The magnitude that encodes infinity. Every larger magnitude encodes no
/// number at all.
pub const INFINITY_MAGNITUDE: u64 = 0x7ff0_0000_0000_0000;

/// The low 63 bits of a word: what is left when the sign is taken off.
pub open spec fn magnitude(bits: u64) -> int {
    if bits < SIGN_BIT {
        bits as int
    } else {
        bits - SIGN_BIT
    }
}

/// Whether a word encodes a number, finite or infinite.
pub open spec fn is_number(bits: u64) -> bool {
    magnitude(bits) <= INFINITY_MAGNITUDE
}

/// The integer that a sign-and-magnitude word stands for: the magnitude,
/// negated where the sign bit is set. Both zeros stand for 0.
pub open spec fn signed_magnitude(bits: u64) -> int {
    if bits < SIGN_BIT {
        magnitude(bits)
    } else {
        -magnitude(bits)
    }
}

/// The distance key of a ray parameter, given by its binary encoding in 64
/// bits, or `None` where the encoding is of no number.
///
/// The encoding stores a sign bit above a magnitude that grows with the
/// absolute value, infinity last, so two parameters compare as their keys
/// do. What encodes no number compares with nothing and gets no key.
pub fn distance_key(bits: u64) -> (key: Option<i64>)
    ensures
        key == if is_number(bits) {
            Some(signed_magnitude(bits) as i64)
        } else {
            None
        },
        is_number(bits) ==> i64::MIN < signed_magnitude(bits) <= i64::MAX,
{
    if bits < SIGN_BIT {
        if bits <= INFINITY_MAGNITUDE {
            Some(bits as i64)
        } else {
            None
        }
    } else {
        let magnitude: u64 = bits - SIGN_BIT;
        if magnitude <= INFINITY_MAGNITUDE {
            Some(-(magnitude as i64))
        } else {
            None
        }
    }
}

/// Keys order as the words do: with the sign clear a larger word has the
/// larger key, with the sign set the smaller one, and a word with the sign
/// set never has a key above that of a word with the sign clear. Two words
/// share a key only where they are the same word or the two zeros.
pub proof fn lemma_key_order(a: u64, b: u64)
    ensures
        a < SIGN_BIT && b < SIGN_BIT ==> (signed_magnitude(a) < signed_magnitude(b) <==> a < b),
        a >= SIGN_BIT && b >= SIGN_BIT ==> (signed_magnitude(a) < signed_magnitude(b) <==> a
            > b),
        a >= SIGN_BIT && b < SIGN_BIT ==> signed_magnitude(a) <= signed_magnitude(b),
        signed_magnitude(a) == signed_magnitude(b) <==> a == b || (magnitude(a) == 0 && magnitude(
            b,
        ) == 0),
{
}

/// Whether a report is a meeting strictly inside the open interval `(lo, hi)`.
pub open spec fn admits(report: Option<i64>, lo: i64, hi: i64) -> bool {
    match report {
        Some(key) => lo < key < hi,
        None => false,
    }
}

/// Whether `report` is a meeting strictly inside `(lo, hi)`: the test that
/// one surface alone is held to.
pub fn admitted(report: Option<i64>, lo: i64, hi: i64) -> (inside: bool)
    ensures
        inside == admits(report, lo, hi),
{
    match report {
        Some(key) => lo < key && key < hi,
        None => false,
    }
}

/// Whether surface `j` is the one the scene answers with: its report lies
/// inside `(lo, hi)`, no admitted report is nearer, and of the surfaces that
/// share its distance it comes first.
pub open spec fn is_nearest(reports: Seq<Option<i64>>, lo: i64, hi: i64, j: int) -> bool {
    &&& 0 <= j < reports.len()
    &&& admits(reports[j], lo, hi)
    &&& forall|i: int|
        0 <= i < reports.len() && admits(#[trigger] reports[i], lo, hi) ==> reports[j].unwrap()
            <= reports[i].unwrap()
    &&& forall|i: int|
        0 <= i < j && admits(#[trigger] reports[i], lo, hi) ==> reports[j].unwrap()
            < reports[i].unwrap()
}

/// Whether no surface is met inside `(lo, hi)`.
pub open spec fn all_miss(reports: Seq<Option<i64>>, lo: i64, hi: i64) -> bool {
    forall|i: int| 0 <= i < reports.len() ==> !admits(#[trigger] reports[i], lo, hi)
}

/// The surface met first inside `(lo, hi)`, by its place in `reports`.
///
/// The scan keeps an upper bound that starts at `hi` and drops to each
/// admitted key in turn, so a later surface replaces an earlier one only
/// where it is strictly nearer.
pub fn nearest(reports: &[Option<i64>], lo: i64, hi: i64) -> (found: Option<usize>)
    ensures
        match found {
            Some(j) => is_nearest(reports@, lo, hi, j as int),
            None => all_miss(reports@, lo, hi),
        },
{
    let mut found: Option<usize> = None;
    let mut closest_so_far: i64 = hi;
    let mut i: usize = 0;
    while i < reports.len()
        invariant
            i <= reports.len(),
            closest_so_far <= hi,
            match found {
                Some(j) => {
                    &&& j < i
                    &&& is_nearest(reports@.take(i as int), lo, hi, j as int)
                    &&& reports[j as int] == Some(closest_so_far)
                },
                None => closest_so_far == hi && all_miss(reports@.take(i as int), lo, hi),
            },
        decreases reports.len() - i,
    {
        let ghost before = reports@.take(i as int);
        let ghost after = reports@.take(i + 1);
        proof {
            assert(forall|k: int| 0 <= k < i ==> after[k] == before[k]);
            assert(after[i as int] == reports[i as int]);
        }
        match reports[i] {
            Some(key) => {
                if lo < key && key < closest_so_far {
                    found = Some(i);
                    closest_so_far = key;
                }
            },
            None => {},
        }
        i += 1;
    }
    proof {
        assert(reports@.take(i as int) =~= reports@);
    }
    found
}

/// The answer is determined: no two surfaces are both the nearest.
pub proof fn lemma_nearest_unique(reports: Seq<Option<i64>>, lo: i64, hi: i64, j: int, k: int)
    requires
        is_nearest(reports, lo, hi, j),
        is_nearest(reports, lo, hi, k),
    ensures
        j == k,
{
}

/// The order of the surfaces does not change the distance that is answered:
/// two scenes that hold the same reports, each as often as the other, are
/// met at the same key, and one misses where the other does.
pub proof fn lemma_nearest_ignores_order(
    a: Seq<Option<i64>>,
    b: Seq<Option<i64>>,
    lo: i64,
    hi: i64,
)
    requires
        a.to_multiset() == b.to_multiset(),
    ensures
        all_miss(a, lo, hi) <==> all_miss(b, lo, hi),
        forall|j: int, k: int|
            is_nearest(a, lo, hi, j) && is_nearest(b, lo, hi, k) ==> a[j] == b[k],
{
    assert forall|j: int, k: int|
        is_nearest(a, lo, hi, j) && is_nearest(b, lo, hi, k) implies a[j] == b[k] by {
        let kb = lemma_report_occurs(a, b, j);
        let ka = lemma_report_occurs(b, a, k);
        assert(admits(b[kb], lo, hi));
        assert(admits(a[ka], lo, hi));
    }
    if !all_miss(a, lo, hi) {
        let i = choose|i: int| 0 <= i < a.len() && admits(#[trigger] a[i], lo, hi);
        let k = lemma_report_occurs(a, b, i);
        assert(admits(b[k], lo, hi));
    }
    if !all_miss(b, lo, hi) {
        let i = choose|i: int| 0 <= i < b.len() && admits(#[trigger] b[i], lo, hi);
        let k = lemma_report_occurs(b, a, i);
        assert(admits(a[k], lo, hi));
    }
}

/// Where two scenes hold the same reports, report `i` of `a` stands at some
/// place `k` of `b`.
proof fn lemma_report_occurs(a: Seq<Option<i64>>, b: Seq<Option<i64>>, i: int) -> (k: int)
    requires
        a.to_multiset() == b.to_multiset(),
        0 <= i < a.len(),
    ensures
        0 <= k < b.len(),
        b[k] == a[i],
{
    vstd::seq_lib::to_multiset_contains(a, a[i]);
    vstd::seq_lib::to_multiset_contains(b, a[i]);
    assert(a.contains(a[i]));
    choose|k: int| 0 <= k < b.len() && b[k] == a[i]
}

} // verus!
