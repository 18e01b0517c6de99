//! Letter-Count Vectors: 26 signed counters, one per Latin letter.
//!
//! The mathematical model of a vector is a `Seq<int>` of length 26; the spec
//! functions below define the pointwise operations and the containment
//! partial order over that model, and `counts` gives the model of the vector
//! derived from a string (case-insensitively, ignoring non-letters).

use vstd::prelude::*;
use vstd::string::StrSliceExecFns;

verus! {

/// Does character `c` denote alphabet slot `j` (0 for A/a .. 25 for Z/z)?
pub open spec fn letter_at_slot(c: char, j: int) -> bool {
    c as int == 65 + j || c as int == 97 + j
}

/// How many characters of `s` fall in alphabet slot `j`.
pub open spec fn slot_count(s: Seq<char>, j: int) -> int
    decreases s.len(),
{
    if s.len() == 0 {
        0
    } else {
        slot_count(s.drop_last(), j) + if letter_at_slot(s.last(), j) {
            1int
        } else {
            0int
        }
    }
}

/// The letter-count model of a string: slot `j` counts the occurrences of
/// the `j`-th letter, upper or lower case.
pub open spec fn counts(s: Seq<char>) -> Seq<int> {
    Seq::new(26, |j: int| slot_count(s, j))
}

/// Pointwise containment order: no slot of `a` exceeds the same slot of `b`.
pub open spec fn vec_le(a: Seq<int>, b: Seq<int>) -> bool {
    &&& a.len() == 26
    &&& b.len() == 26
    &&& forall|j: int| 0 <= j < 26 ==> a[j] <= b[j]
}

/// All 26 slots are zero.
pub open spec fn vec_zero(a: Seq<int>) -> bool {
    a.len() == 26 && forall|j: int| 0 <= j < 26 ==> a[j] == 0
}

/// All 26 slots are non-negative.
pub open spec fn vec_nonneg(a: Seq<int>) -> bool {
    a.len() == 26 && forall|j: int| 0 <= j < 26 ==> a[j] >= 0
}

/// Slotwise equality of two 26-slot vectors.
pub open spec fn vec_eq(a: Seq<int>, b: Seq<int>) -> bool {
    &&& a.len() == 26
    &&& b.len() == 26
    &&& forall|j: int| 0 <= j < 26 ==> a[j] == b[j]
}

/// Pointwise sum.
pub open spec fn vec_add(a: Seq<int>, b: Seq<int>) -> Seq<int> {
    Seq::new(26, |j: int| a[j] + b[j])
}

/// Pointwise difference (slots may go negative).
pub open spec fn vec_sub(a: Seq<int>, b: Seq<int>) -> Seq<int> {
    Seq::new(26, |j: int| a[j] - b[j])
}

/// A fixed-size vector of letter counters, indexed by alphabet position.
#[derive(Debug, Clone, Copy, PartialEq, Eq)]
pub struct Occurrences {
    alphabet: [i32; 26],
}

impl View for Occurrences {
    type V = Seq<int>;

    closed spec fn view(&self) -> Seq<int> {
        Seq::new(26, |j: int| self.alphabet@[j] as int)
    }
}

impl Occurrences {
    /// The zero vector.
    pub fn null() -> (r: Occurrences)
        ensures
            vec_zero(r@),
    {
        Occurrences { alphabet: [0i32; 26] }
    }

    /// Count the letters of `s`, upper and lower case alike; other
    /// characters contribute nothing.
    pub fn from_string(s: &str) -> (r: Occurrences)
        requires
            s@.len() <= 0x7fff_ffff,
        ensures
            r@ == counts(s@),
            vec_nonneg(r@),
    {
        let mut alphabet: [i32; 26] = [0i32; 26];
        let n = s.unicode_len();
        let mut i: usize = 0;
        while i < n
            invariant
                n == s@.len(),
                n <= 0x7fff_ffff,
                i <= n,
                forall|j: int| 0 <= j < 26 ==> 0 <= #[trigger] alphabet@[j] <= i,
                forall|j: int|
                    0 <= j < 26 ==> #[trigger] alphabet@[j] as int == slot_count(
                        s@.take(i as int),
                        j,
                    ),
            decreases n - i,
        {
            let c = s.get_char(i);
            let code = c as u32;
            if 65 <= code && code <= 90 {
                let k = (code - 65) as usize;
                alphabet[k] = alphabet[k] + 1;
            } else if 97 <= code && code <= 122 {
                let k = (code - 97) as usize;
                alphabet[k] = alphabet[k] + 1;
            }
            proof {
                assert forall|j: int| 0 <= j < 26 implies #[trigger] alphabet@[j] as int
                    == slot_count(s@.take(i + 1), j) by {
                    lemma_slot_count_take_step(s@, i as int, j);
                }
            }
            i = i + 1;
        }
        proof {
            assert(s@.take(n as int) =~= s@);
            assert(Seq::new(26, |j: int| alphabet@[j] as int) =~= counts(s@));
        }
        Occurrences { alphabet }
    }
}

/// The outcome of comparing two vectors under the containment order, which
/// is partial: two vectors can be incomparable.
#[derive(Debug, Clone, Copy, PartialEq, Eq)]
pub enum Comparison {
    Less,
    Equal,
    Greater,
    Incomparable,
}

impl Occurrences {
    /// Pointwise sum.
    pub fn add(self, other: Occurrences) -> (r: Occurrences)
        requires
            forall|j: int|
                0 <= j < 26 ==> i32::MIN <= #[trigger] (self@[j] + other@[j]) <= i32::MAX,
        ensures
            r@ == vec_add(self@, other@),
    {
        let mut alphabet: [i32; 26] = [0i32; 26];
        let mut j: usize = 0;
        while j < 26
            invariant
                j <= 26,
                forall|k: int|
                    0 <= k < 26 ==> i32::MIN <= #[trigger] (self@[k] + other@[k]) <= i32::MAX,
                forall|k: int|
                    0 <= k < j ==> #[trigger] alphabet@[k] as int == self@[k] + other@[k],
            decreases 26 - j,
        {
            proof {
                assert(i32::MIN <= self@[j as int] + other@[j as int] <= i32::MAX);
            }
            alphabet[j] = self.alphabet[j] + other.alphabet[j];
            j = j + 1;
        }
        proof {
            assert(Seq::new(26, |k: int| alphabet@[k] as int) =~= vec_add(self@, other@));
        }
        Occurrences { alphabet }
    }

    /// Pointwise difference; slots may go negative.
    pub fn sub(self, other: Occurrences) -> (r: Occurrences)
        requires
            forall|j: int|
                0 <= j < 26 ==> i32::MIN <= #[trigger] (self@[j] - other@[j]) <= i32::MAX,
        ensures
            r@ == vec_sub(self@, other@),
    {
        let mut r = self;
        r.sub_assign(other);
        r
    }

    /// Pointwise in-place subtraction.
    pub fn sub_assign(&mut self, other: Occurrences)
        requires
            forall|j: int|
                0 <= j < 26 ==> i32::MIN <= #[trigger] (old(self)@[j] - other@[j]) <= i32::MAX,
        ensures
            final(self)@ == vec_sub(old(self)@, other@),
    {
        let mut alphabet: [i32; 26] = [0i32; 26];
        let mut j: usize = 0;
        while j < 26
            invariant
                j <= 26,
                self@ == old(self)@,
                forall|k: int|
                    0 <= k < 26 ==> i32::MIN <= #[trigger] (self@[k] - other@[k]) <= i32::MAX,
                forall|k: int|
                    0 <= k < j ==> #[trigger] alphabet@[k] as int == self@[k] - other@[k],
            decreases 26 - j,
        {
            proof {
                assert(i32::MIN <= self@[j as int] - other@[j as int] <= i32::MAX);
            }
            alphabet[j] = self.alphabet[j] - other.alphabet[j];
            j = j + 1;
        }
        proof {
            assert(Seq::new(26, |k: int| alphabet@[k] as int) =~= vec_sub(self@, other@));
        }
        self.alphabet = alphabet;
    }

    /// Containment test: no slot of `self` exceeds the same slot of `other`.
    pub fn less_or_equal(&self, other: &Occurrences) -> (r: bool)
        ensures
            r == vec_le(self@, other@),
    {
        let mut j: usize = 0;
        while j < 26
            invariant
                j <= 26,
                forall|k: int| 0 <= k < j ==> self@[k] <= other@[k],
            decreases 26 - j,
        {
            if self.alphabet[j] > other.alphabet[j] {
                proof {
                    assert(self@[j as int] > other@[j as int]);
                }
                return false;
            }
            j = j + 1;
        }
        true
    }

    /// Is this the zero vector?
    pub fn is_zero(&self) -> (r: bool)
        ensures
            r == vec_zero(self@),
    {
        let mut j: usize = 0;
        while j < 26
            invariant
                j <= 26,
                forall|k: int| 0 <= k < j ==> self@[k] == 0,
            decreases 26 - j,
        {
            if self.alphabet[j] != 0 {
                proof {
                    assert(self@[j as int] != 0);
                }
                return false;
            }
            j = j + 1;
        }
        true
    }

    /// Are all slots non-negative?
    pub fn is_non_negative(&self) -> (r: bool)
        ensures
            r == vec_nonneg(self@),
    {
        let mut j: usize = 0;
        while j < 26
            invariant
                j <= 26,
                forall|k: int| 0 <= k < j ==> self@[k] >= 0,
            decreases 26 - j,
        {
            if self.alphabet[j] < 0 {
                proof {
                    assert(self@[j as int] < 0);
                }
                return false;
            }
            j = j + 1;
        }
        true
    }

    /// Compare under the containment order, reporting incomparability
    /// where one slot is larger and another smaller.
    pub fn compare(&self, other: &Occurrences) -> (r: Comparison)
        ensures
            r == Comparison::Equal <==> vec_eq(self@, other@),
            r == Comparison::Less <==> vec_le(self@, other@) && !vec_eq(self@, other@),
            r == Comparison::Greater <==> vec_le(other@, self@) && !vec_eq(self@, other@),
            r == Comparison::Incomparable <==> !vec_le(self@, other@) && !vec_le(
                other@,
                self@,
            ),
    {
        let mut exists_less = false;
        let mut exists_greater = false;
        let mut j: usize = 0;
        while j < 26
            invariant
                j <= 26,
                exists_less == exists|k: int| 0 <= k < j && self@[k] < other@[k],
                exists_greater == exists|k: int| 0 <= k < j && self@[k] > other@[k],
            decreases 26 - j,
        {
            if self.alphabet[j] < other.alphabet[j] {
                exists_less = true;
                proof {
                    assert(0 <= j < j + 1 && self@[j as int] < other@[j as int]);
                }
            } else if self.alphabet[j] > other.alphabet[j] {
                exists_greater = true;
                proof {
                    assert(0 <= j < j + 1 && self@[j as int] > other@[j as int]);
                }
            }
            j = j + 1;
        }
        if exists_less && !exists_greater {
            Comparison::Less
        } else if exists_greater && !exists_less {
            Comparison::Greater
        } else if !exists_less && !exists_greater {
            Comparison::Equal
        } else {
            Comparison::Incomparable
        }
    }
}

/// Every slot of an `Occurrences` view is the value of an `i32` counter.
pub proof fn lemma_occurrences_in_range(a: Occurrences)
    ensures
        a@.len() == 26,
        forall|j: int| 0 <= j < 26 ==> i32::MIN <= #[trigger] a@[j] <= i32::MAX,
{
}

/// Sum of the first `n` slots of a vector.
pub open spec fn total_prefix(a: Seq<int>, n: int) -> int
    decreases n,
{
    if n <= 0 {
        0
    } else {
        total_prefix(a, n - 1) + a[n - 1]
    }
}

/// Sum of all 26 slots.
pub open spec fn total(a: Seq<int>) -> int {
    total_prefix(a, 26)
}

/// The slot sum distributes over pointwise subtraction.
pub proof fn lemma_total_sub(a: Seq<int>, b: Seq<int>, n: int)
    requires
        a.len() == 26,
        b.len() == 26,
        0 <= n <= 26,
    ensures
        total_prefix(vec_sub(a, b), n) == total_prefix(a, n) - total_prefix(b, n),
    decreases n,
{
    if n > 0 {
        lemma_total_sub(a, b, n - 1);
    }
}

/// The slot sum of a non-negative vector is non-negative and bounds each slot.
pub proof fn lemma_total_bounds(a: Seq<int>, n: int)
    requires
        vec_nonneg(a),
        0 <= n <= 26,
    ensures
        total_prefix(a, n) >= 0,
        forall|k: int| 0 <= k < n ==> total_prefix(a, n) >= a[k],
    decreases n,
{
    if n > 0 {
        lemma_total_bounds(a, n - 1);
    }
}

/// A non-negative vector that is not the zero vector has a positive slot sum.
pub proof fn lemma_total_positive(a: Seq<int>)
    requires
        vec_nonneg(a),
        !vec_zero(a),
    ensures
        total(a) >= 1,
{
    let k = choose|k: int| 0 <= k < 26 && a[k] != 0;
    lemma_total_bounds(a, 26);
    assert(total(a) >= a[k]);
}

/// Self-cancellation: subtracting a vector from itself yields the zero vector.
pub proof fn lemma_subtract_self_is_zero(a: Seq<int>)
    requires
        a.len() == 26,
    ensures
        vec_zero(vec_sub(a, a)),
{
}

/// Subtracting a contained vector leaves every slot non-negative.
pub proof fn lemma_le_subtract_nonneg(a: Seq<int>, b: Seq<int>)
    requires
        vec_le(a, b),
    ensures
        vec_nonneg(vec_sub(b, a)),
{
}

/// The containment order is reflexive.
pub proof fn lemma_le_reflexive(a: Seq<int>)
    requires
        a.len() == 26,
    ensures
        vec_le(a, a),
{
}

/// The containment order is antisymmetric.
pub proof fn lemma_le_antisymmetric(a: Seq<int>, b: Seq<int>)
    requires
        vec_le(a, b),
        vec_le(b, a),
    ensures
        a == b,
{
    assert(a =~= b);
}

/// The containment order is transitive.
pub proof fn lemma_le_transitive(a: Seq<int>, b: Seq<int>, c: Seq<int>)
    requires
        vec_le(a, b),
        vec_le(b, c),
    ensures
        vec_le(a, c),
{
}

/// Lower-case Latin letters folded to upper case; other characters unchanged.
pub open spec fn to_upper(c: char) -> char {
    if 97 <= c as int <= 122 {
        (c as u32 - 32) as char
    } else {
        c
    }
}

/// A string case-folded character by character.
pub open spec fn upper_seq(s: Seq<char>) -> Seq<char> {
    s.map_values(|c: char| to_upper(c))
}

/// Counting letters is case-insensitive: folding a string to upper case
/// leaves its letter-count vector unchanged.
pub proof fn lemma_counts_case_insensitive(s: Seq<char>)
    ensures
        counts(upper_seq(s)) == counts(s),
{
    assert forall|j: int| 0 <= j < 26 implies counts(upper_seq(s))[j] == counts(s)[j] by {
        lemma_slot_count_upper(s, j);
    }
    assert(counts(upper_seq(s)) =~= counts(s));
}

proof fn lemma_slot_count_upper(s: Seq<char>, j: int)
    requires
        0 <= j < 26,
    ensures
        slot_count(upper_seq(s), j) == slot_count(s, j),
    decreases s.len(),
{
    if s.len() > 0 {
        assert(upper_seq(s).drop_last() =~= upper_seq(s.drop_last()));
        assert(upper_seq(s).last() == to_upper(s.last()));
        lemma_slot_count_upper(s.drop_last(), j);
        assert(letter_at_slot(to_upper(s.last()), j) == letter_at_slot(s.last(), j));
    }
}

/// Extending a prefix of `s` by one character adds that character's
/// contribution to every slot count.
proof fn lemma_slot_count_take_step(s: Seq<char>, i: int, j: int)
    requires
        0 <= i < s.len(),
    ensures
        slot_count(s.take(i + 1), j) == slot_count(s.take(i), j) + if letter_at_slot(s[i], j) {
            1int
        } else {
            0int
        },
{
    assert(s.take(i + 1).drop_last() =~= s.take(i));
    assert(s.take(i + 1).last() == s[i]);
}

} // verus!
