//! Labels which select a match from the keyboard.
use vstd::prelude::*;

use crate::text::characters;

verus! {

/// Percentage of the alphabet which is used for the last character of a label.
pub const HINT_SPLIT_PERCENTAGE: usize = 50;

/// The last index of an alphabet of `len` characters which ends a label, when `percentage` of the
/// alphabet is set aside for that.
pub open spec fn split_index(len: nat, percentage: nat) -> nat
    recommends
        len > 0,
{
    let share = if percentage < 100 {
        percentage
    } else {
        100
    };
    (((len - 1) * share) / 100) as nat
}

/// Half of the alphabet ends a label by default.
pub proof fn lemma_half(len: nat)
    requires
        len > 0,
    ensures
        split_index(len, HINT_SPLIT_PERCENTAGE as nat) == (len - 1) / 2,
{
    let last = len - 1;
    assert((last * 50) / 100 == last / 2) by (nonlinear_arith)
        requires
            last >= 0,
    ;
}

/// The digits of `rank` in front of the last character of a label, the one next to the last
/// character first.
///
/// The characters behind index `split` are the digits. A digit stands for one of the values from
/// one to `heads`, so that every rank has exactly one way to be written.
pub open spec fn head_indices(split: nat, heads: nat, rank: nat) -> Seq<nat>
    decreases rank,
{
    if rank == 0 || heads == 0 {
        Seq::empty()
    } else {
        seq![split + 1 + ((rank - 1) as nat) % heads] + head_indices(
            split,
            heads,
            ((rank - 1) as nat) / heads,
        )
    }
}

/// The alphabet indices of label number `position`, the last character of the label first.
pub open spec fn label_indices(len: nat, split: nat, position: nat) -> Seq<nat> {
    seq![position % (split + 1)] + head_indices(
        split,
        (len - split - 1) as nat,
        position / (split + 1),
    )
}

/// An alphabet of `len` characters has a label number `position`.
pub open spec fn has_label(len: nat, split: nat, position: nat) -> bool {
    &&& split < len
    &&& position <= split || split + 1 < len
}

/// Label number `position`.
pub open spec fn label(alphabet: Seq<char>, split: nat, position: nat) -> Seq<char> {
    label_indices(alphabet.len(), split, position).reverse().map_values(|i: nat| alphabet[i as int])
}

/// How the digits in front of the last character change from one rank to the next.
proof fn lemma_next_head(split: nat, heads: nat, rank: nat)
    requires
        heads > 0,
    ensures
        rank == 0 ==> head_indices(split, heads, rank + 1) == seq![split + 1],
        rank > 0 ==> {
            let digits = head_indices(split, heads, rank);
            let rest = ((rank - 1) as nat) / heads;
            let next = head_indices(split, heads, rank + 1);
            &&& digits.len() > 0
            &&& split < digits[0] <= split + heads
            &&& digits.drop_first() == head_indices(split, heads, rest)
            &&& digits[0] == split + heads ==> next == seq![split + 1] + head_indices(
                split,
                heads,
                rest + 1,
            )
            &&& digits[0] < split + heads ==> next == seq![digits[0] + 1] + digits.drop_first()
        },
{
    let digits = head_indices(split, heads, rank);
    let next = head_indices(split, heads, rank + 1);
    if rank == 0 {
        assert(0nat % heads == 0 && 0nat / heads == 0) by (nonlinear_arith)
            requires
                heads > 0,
        ;
        assert(head_indices(split, heads, 0) =~= Seq::empty());
        assert(next =~= seq![split + 1]);
    } else {
        let below: nat = (rank - 1) as nat;
        let rest = below / heads;
        let digit = below % heads;
        assert(0 <= digit < heads && below == heads * rest + digit) by (nonlinear_arith)
            requires
                heads > 0,
                rest == below / heads,
                digit == below % heads,
        ;
        assert(digits.drop_first() =~= head_indices(split, heads, rest));
        if digit + 1 == heads {
            assert(rank % heads == 0 && rank / heads == rest + 1) by (nonlinear_arith)
                requires
                    heads > 0,
                    rank == heads * rest + heads,
            ;
        } else {
            assert(rank % heads == digit + 1 && rank / heads == rest) by (nonlinear_arith)
                requires
                    0 <= digit + 1 < heads,
                    rank == heads * rest + digit + 1,
            ;
            assert(next =~= seq![digits[0] + 1] + digits.drop_first());
        }
    }
}

/// How the last character and the rank of the digits in front of it change from one label to the
/// next.
proof fn lemma_next_tail(split: nat, position: nat)
    ensures
        position % (split + 1) <= split,
        position % (split + 1) < split ==> {
            &&& (position + 1) % (split + 1) == position % (split + 1) + 1
            &&& (position + 1) / (split + 1) == position / (split + 1)
        },
        position % (split + 1) == split ==> {
            &&& (position + 1) % (split + 1) == 0
            &&& (position + 1) / (split + 1) == position / (split + 1) + 1
        },
        position / (split + 1) == 0 <==> position <= split,
        position <= split ==> position % (split + 1) == position,
{
    let tails: nat = split + 1;
    let rank = position / tails;
    let tail = position % tails;
    assert(0 <= tail < tails && position == tails * rank + tail) by (nonlinear_arith)
        requires
            tails > 0,
            rank == position / tails,
            tail == position % tails,
    ;
    if tail < split {
        assert((position + 1) % tails == tail + 1 && (position + 1) / tails == rank)
            by (nonlinear_arith)
            requires
                0 <= tail + 1 < tails,
                position + 1 == tails * rank + (tail + 1),
        ;
    } else {
        assert((position + 1) % tails == 0 && (position + 1) / tails == rank + 1)
            by (nonlinear_arith)
            requires
                tails > 0,
                position + 1 == tails * rank + tails,
        ;
    }
    if rank == 0 {
        assert(tails * rank == 0) by (nonlinear_arith)
            requires
                rank == 0,
        ;
    } else {
        assert(tails * rank >= tails) by (nonlinear_arith)
            requires
                rank >= 1,
                tails > 0,
        ;
    }
}

/// Every digit in front of the last character is behind the split.
proof fn lemma_head_range(split: nat, heads: nat, rank: nat)
    ensures
        forall|i: int|
            0 <= i < head_indices(split, heads, rank).len() ==> split < #[trigger] head_indices(
                split,
                heads,
                rank,
            )[i] <= split + heads,
    decreases rank,
{
    if rank > 0 && heads > 0 {
        let rest = ((rank - 1) as nat) / heads;
        assert(rest < rank) by (nonlinear_arith)
            requires
                heads > 0,
                rank > 0,
                rest == ((rank - 1) as nat) / heads,
        ;
        lemma_head_range(split, heads, rest);
        lemma_next_head(split, heads, rank);
        let digits = head_indices(split, heads, rank);
        assert forall|i: int| 0 <= i < digits.len() implies split < #[trigger] digits[i] <= split
            + heads by {
            if i > 0 {
                assert(digits[i] == digits.drop_first()[i - 1]);
            }
        }
    }
}

/// Every index of a label is an index of the alphabet.
pub proof fn lemma_label_range(len: nat, split: nat, position: nat)
    requires
        split < len,
    ensures
        label_indices(len, split, position).len() > 0,
        forall|i: int|
            0 <= i < label_indices(len, split, position).len() ==> #[trigger] label_indices(
                len,
                split,
                position,
            )[i] < len,
{
    let heads = (len - split - 1) as nat;
    let rank = position / (split + 1);
    lemma_next_tail(split, position);
    lemma_head_range(split, heads, rank);
    let indices = label_indices(len, split, position);
    assert forall|i: int| 0 <= i < indices.len() implies #[trigger] indices[i] < len by {
        if i > 0 {
            assert(indices[i] == head_indices(split, heads, rank)[i - 1]);
        }
    }
}

/// Generator of the labels, one after another.
pub struct HintLabels {
    /// Full character set available.
    alphabet: Vec<char>,
    /// Alphabet indices of the next label, its last character first.
    indices: Vec<usize>,
    /// Index which separates the alphabet's tail and head characters.
    ///
    /// The characters up to this index end a label, the characters behind it are used for
    /// everything else. This makes it easy to tell where a label ends.
    split_point: usize,
    /// Number of the next label.
    position: Ghost<nat>,
}

impl HintLabels {
    /// Characters the labels are made of.
    pub closed spec fn alphabet(&self) -> Seq<char> {
        self.alphabet@
    }

    /// Last index of the alphabet which ends a label.
    pub closed spec fn split_point(&self) -> nat {
        self.split_point as nat
    }

    /// Number of labels which were handed out.
    pub closed spec fn position(&self) -> nat {
        self.position@
    }

    /// The indices are those of the next label, as long as there is one.
    pub closed spec fn wf(&self) -> bool {
        &&& self.split_point < self.alphabet@.len()
        &&& self.indices@.len() > 0
        &&& has_label(self.alphabet@.len(), self.split_point as nat, self.position@)
            ==> self.indices@.map_values(|i: usize| i as nat) == label_indices(
            self.alphabet@.len(),
            self.split_point as nat,
            self.position@,
        )
        &&& !has_label(self.alphabet@.len(), self.split_point as nat, self.position@)
            ==> self.indices@.len() > 1
    }

    /// Create a new label generator.
    ///
    /// The `split_percentage` is the share of the alphabet which is reserved for the tail of the
    /// labels; more than a hundred counts as a hundred.
    pub fn new(alphabet: &str, split_percentage: usize) -> (labels: HintLabels)
        requires
            alphabet@.len() > 0,
        ensures
            labels.wf(),
            labels.alphabet() == alphabet@,
            labels.split_point() == split_index(alphabet@.len(), split_percentage as nat),
            labels.position() == 0,
    {
        let characters = characters(alphabet);
        let share: usize = if split_percentage < 100 {
            split_percentage
        } else {
            100
        };
        let last: usize = characters.len() - 1;
        proof {
            assert(0 <= last * share <= last * 100) by (nonlinear_arith)
                requires
                    share <= 100,
            ;
        }
        let split_point: usize = ((last as u128 * share as u128) / 100) as usize;

        let labels = HintLabels {
            alphabet: characters,
            indices: vec![0],
            split_point,
            position: Ghost(0),
        };
        proof {
            lemma_next_tail(split_point as nat, 0);
            assert(labels.indices@.map_values(|i: usize| i as nat) =~= label_indices(
                labels.alphabet@.len(),
                split_point as nat,
                0,
            ));
        }
        labels
    }

    /// Check if there is another label.
    pub fn has_next(&self) -> (more: bool)
        requires
            self.wf(),
        ensures
            more == has_label(self.alphabet().len(), self.split_point(), self.position()),
    {
        proof {
            lemma_next_tail(self.split_point as nat, self.position@);
        }
        let alphabet_len: usize = self.alphabet.len();
        if self.split_point < alphabet_len - 1 {
            true
        } else {
            // Without a character for the head, every label is a single character.
            self.indices.len() == 1
        }
    }

    /// Get the characters for the next label.
    pub fn next(&mut self) -> (characters: Vec<char>)
        requires
            old(self).wf(),
            has_label(old(self).alphabet().len(), old(self).split_point(), old(self).position()),
        ensures
            final(self).wf(),
            final(self).alphabet() == old(self).alphabet(),
            final(self).split_point() == old(self).split_point(),
            final(self).position() == old(self).position() + 1,
            characters@ == label(
                old(self).alphabet(),
                old(self).split_point(),
                old(self).position(),
            ),
    {
        let ghost expected = label_indices(
            self.alphabet@.len(),
            self.split_point as nat,
            self.position@,
        );
        let ghost mapped = self.indices@.map_values(|i: usize| i as nat);
        proof {
            lemma_label_range(self.alphabet@.len(), self.split_point as nat, self.position@);
        }
        let mut characters: Vec<char> = Vec::new();
        let mut left: usize = self.indices.len();
        while left > 0
            invariant
                mapped == expected,
                mapped == self.indices@.map_values(|i: usize| i as nat),
                forall|i: int| 0 <= i < expected.len() ==> #[trigger] expected[i] < self.alphabet@.len(),
                left <= self.indices@.len(),
                characters@.len() == self.indices@.len() - left,
                forall|i: int|
                    0 <= i < characters@.len() ==> #[trigger] characters@[i]
                        == self.alphabet@[expected[expected.len() - 1 - i] as int],
            decreases left,
        {
            left = left - 1;
            assert(mapped[left as int] == self.indices@[left as int]);
            let index: usize = self.indices[left];
            characters.push(self.alphabet[index]);
        }
        assert(characters@ =~= label(
            self.alphabet@,
            self.split_point as nat,
            self.position@,
        ));
        self.increment();
        characters
    }

    /// Increment the character sequence.
    fn increment(&mut self)
        requires
            old(self).wf(),
            has_label(old(self).alphabet().len(), old(self).split_point(), old(self).position()),
        ensures
            final(self).wf(),
            final(self).alphabet() == old(self).alphabet(),
            final(self).split_point() == old(self).split_point(),
            final(self).position() == old(self).position() + 1,
    {
        let ghost split = self.split_point as nat;
        let ghost len = self.alphabet@.len();
        let ghost heads = (len - split - 1) as nat;
        let ghost position = self.position@;
        let ghost before = label_indices(len, split, position);
        let ghost start = self.indices@;
        let ghost after = label_indices(len, split, position + 1);
        proof {
            lemma_next_tail(split, position);
            lemma_next_tail(split, position + 1);
            lemma_label_range(len, split, position);
            assert(start.map_values(|i: usize| i as nat)[0] == start[0]);
        }
        self.position = Ghost(position + 1);

        // Increment the last character; if it's not at the split point we're done.
        let tail: usize = self.indices[0];
        if tail < self.split_point {
            self.indices.set(0, tail + 1);
            proof {
                let mapped = self.indices@.map_values(|i: usize| i as nat);
                assert forall|i: int| 0 < i < mapped.len() implies mapped[i] == before[i] by {
                    assert(start.map_values(|i: usize| i as nat)[i] == start[i]);
                }
                assert(mapped =~= after);
            }
            return ;
        }
        self.indices.set(0, 0);

        // Increment all other characters in reverse order.
        let alphabet_len: usize = self.alphabet.len();
        let ghost mut rank = position / (split + 1);
        let mut i: usize = 1;
        proof {
            assert forall|j: int| 1 <= j < self.indices@.len() implies #[trigger] self.indices@[j]
                == head_indices(split, heads, rank)[j - 1] by {
                assert(start.map_values(|i: usize| i as nat)[j] == start[j]);
            }
            assert(after =~= seq![0nat] + head_indices(split, heads, rank + 1));
            assert(after =~= self.indices@.take(1).map_values(|i: usize| i as nat) + head_indices(
                split,
                heads,
                rank + 1,
            ));
        }
        while i < self.indices.len()
            invariant
                1 <= i <= self.indices@.len(),
                self.alphabet@ == old(self).alphabet@,
                self.split_point == old(self).split_point,
                self.position@ == position + 1,
                position == old(self).position@,
                alphabet_len == len,
                len == self.alphabet@.len(),
                split == self.split_point,
                split < len,
                heads == len - split - 1,
                after == label_indices(len, split, position + 1),
                self.indices@.len() == i + head_indices(split, heads, rank).len(),
                forall|j: int|
                    i <= j < self.indices@.len() ==> #[trigger] self.indices@[j] == head_indices(
                        split,
                        heads,
                        rank,
                    )[j - i],
                heads > 0 ==> after == self.indices@.take(i as int).map_values(|i: usize| i as nat)
                    + head_indices(split, heads, rank + 1),
            decreases self.indices@.len() - i,
        {
            let ghost current = self.indices@;
            let ghost digits = head_indices(split, heads, rank);
            proof {
                assert(heads > 0 && rank > 0);
                lemma_next_head(split, heads, rank);
            }
            let index: usize = self.indices[i];
            assert(index == digits[0]);
            if index + 1 == alphabet_len {
                // Reset character and move to the next if it's already at the limit.
                self.indices.set(i, self.split_point + 1);
                proof {
                    let rest = ((rank - 1) as nat) / heads;
                    assert(self.indices@.take(i + 1).map_values(|i: usize| i as nat) =~= current.take(
                        i as int,
                    ).map_values(|i: usize| i as nat) + seq![split + 1]);
                    assert(after =~= self.indices@.take(i + 1).map_values(|i: usize| i as nat)
                        + head_indices(split, heads, rest + 1));
                    assert forall|j: int| i + 1 <= j < self.indices@.len() implies #[trigger] self.indices@[j]
                        == head_indices(split, heads, rest)[j - (i + 1)] by {
                        assert(digits.drop_first()[j - (i + 1)] == digits[j - i]);
                    }
                    rank = rest;
                }
                i = i + 1;
            } else {
                // If the character can be incremented, we're done.
                self.indices.set(i, index + 1);
                proof {
                    let mapped = self.indices@.map_values(|i: usize| i as nat);
                    let front = current.take(i as int).map_values(|i: usize| i as nat);
                    assert forall|j: int| 0 <= j < mapped.len() implies mapped[j] == after[j] by {
                        if j < i {
                            assert(front[j] == current[j]);
                        } else if j > i {
                            assert(digits.drop_first()[j - i - 1] == digits[j - i]);
                        }
                    }
                    assert(mapped =~= after);
                }
                return ;
            }
        }

        // Extend the sequence with another character when nothing could be incremented.
        let ghost full = self.indices@;
        self.indices.push(self.split_point + 1);
        proof {
            if heads > 0 {
                assert(rank == 0);
                lemma_next_head(split, heads, 0);
                assert(full.take(full.len() as int) =~= full);
                assert(self.indices@.map_values(|i: usize| i as nat) =~= after);
            }
        }
    }
}

/// Different ranks have different digits.
proof fn lemma_head_injective(split: nat, heads: nat, a: nat, b: nat)
    requires
        heads > 0,
        head_indices(split, heads, a) == head_indices(split, heads, b),
    ensures
        a == b,
    decreases a,
{
    let left = head_indices(split, heads, a);
    let right = head_indices(split, heads, b);
    lemma_next_head(split, heads, a);
    lemma_next_head(split, heads, b);
    if a > 0 && b > 0 {
        let rest_a = ((a - 1) as nat) / heads;
        let rest_b = ((b - 1) as nat) / heads;
        assert(rest_a < a) by (nonlinear_arith)
            requires
                heads > 0,
                a > 0,
                rest_a == ((a - 1) as nat) / heads,
        ;
        lemma_head_injective(split, heads, rest_a, rest_b);
        assert(((a - 1) as nat) % heads == ((b - 1) as nat) % heads);
        assert(a == b) by (nonlinear_arith)
            requires
                heads > 0,
                a > 0,
                b > 0,
                ((a - 1) as nat) / heads == ((b - 1) as nat) / heads,
                ((a - 1) as nat) % heads == ((b - 1) as nat) % heads,
        ;
    }
}

/// No label is the beginning of another one, so that typing a label never leaves open whether a
/// longer one is meant. In particular no label is handed out twice.
pub proof fn labels_are_prefix_free(alphabet: Seq<char>, split: nat, a: nat, b: nat)
    requires
        alphabet.no_duplicates(),
        has_label(alphabet.len(), split, a),
        has_label(alphabet.len(), split, b),
        a != b,
    ensures
        !label(alphabet, split, a).is_prefix_of(label(alphabet, split, b)),
{
    let len = alphabet.len();
    let heads = (len - split - 1) as nat;
    let left = label_indices(len, split, a);
    let right = label_indices(len, split, b);
    lemma_label_range(len, split, a);
    lemma_label_range(len, split, b);
    lemma_next_tail(split, a);
    lemma_next_tail(split, b);
    lemma_head_range(split, heads, a / (split + 1));
    lemma_head_range(split, heads, b / (split + 1));
    if label(alphabet, split, a).is_prefix_of(label(alphabet, split, b)) {
        assert forall|i: int| 0 <= i < left.len() implies left[left.len() - 1 - i]
            == #[trigger] right[right.len() - 1 - i] by {
            assert(label(alphabet, split, a)[i] == label(alphabet, split, b)[i]);
            assert(left[left.len() - 1 - i] < len);
            assert(right[right.len() - 1 - i] < len);
        }
        let end = right.len() - left.len();
        assert(left[left.len() - 1 - (left.len() - 1)] == right[right.len() - 1 - (left.len() - 1)]);
        assert(left[0] == right[end]);
        if end > 0 {
            assert(right[end] == head_indices(split, heads, b / (split + 1))[end - 1]);
        } else {
            assert forall|i: int| 0 <= i < left.len() implies left[i] == right[i] by {
                assert(left[left.len() - 1 - (left.len() - 1 - i)] == right[right.len() - 1 - (
                left.len() - 1 - i)]);
            }
            assert(left =~= right);
            let head_a = head_indices(split, heads, a / (split + 1));
            let head_b = head_indices(split, heads, b / (split + 1));
            assert(left.drop_first() =~= head_a);
            assert(right.drop_first() =~= head_b);
            if heads > 0 {
                lemma_head_injective(split, heads, a / (split + 1), b / (split + 1));
                assert(a == b) by (nonlinear_arith)
                    requires
                        a / (split + 1) == b / (split + 1),
                        a % (split + 1) == b % (split + 1),
                ;
            }
        }
    }
}

/// The characters up to `split_index` are the largest part of the alphabet which is not more than
/// the percentage of it, where the first character does not count.
pub proof fn the_split_is_a_percentage(len: nat, percentage: nat)
    requires
        len > 0,
    ensures
        split_index(len, percentage) < len,
        percentage <= 100 ==> {
            &&& split_index(len, percentage) * 100 <= (len - 1) * percentage
            &&& (len - 1) * percentage < (split_index(len, percentage) + 1) * 100
        },
        percentage >= 100 ==> split_index(len, percentage) == len - 1,
{
    let last = (len - 1) as int;
    let share = if percentage < 100 {
        percentage as int
    } else {
        100
    };
    let split = (last * share) / 100;
    assert(0 <= last * share <= last * 100) by (nonlinear_arith)
        requires
            0 <= share <= 100,
            0 <= last,
    ;
    assert(split * 100 <= last * share < (split + 1) * 100 && 0 <= split <= last)
        by (nonlinear_arith)
        requires
            split == (last * share) / 100,
            0 <= last * share <= last * 100,
    ;
    if percentage >= 100 {
        assert(split == last) by (nonlinear_arith)
            requires
                split == (last * share) / 100,
                share == 100,
        ;
    }
}

/// The first labels are the characters which end a label, one after another.
pub proof fn the_first_labels_are_single_characters(alphabet: Seq<char>, split: nat, position: nat)
    requires
        position <= split < alphabet.len(),
    ensures
        label(alphabet, split, position) == seq![alphabet[position as int]],
{
    let indices = label_indices(alphabet.len(), split, position);
    lemma_next_tail(split, position);
    assert(indices =~= seq![position]);
    assert(label(alphabet, split, position) =~= seq![alphabet[position as int]]);
}

/// Behind the label which ends with character `k` of the alphabet comes the one which ends with
/// character `k + 1` instead and is the same otherwise, as long as this character ends labels.
pub proof fn the_last_character_is_counted_up(
    alphabet: Seq<char>,
    split: nat,
    position: nat,
    k: nat,
)
    requires
        has_label(alphabet.len(), split, position),
        label_indices(alphabet.len(), split, position)[0] == k,
        k < split,
    ensures
        label(alphabet, split, position).last() == alphabet[k as int],
        label(alphabet, split, position + 1) == label(alphabet, split, position).drop_last().push(
            alphabet[(k + 1) as int],
        ),
{
    let len = alphabet.len();
    let before = label_indices(len, split, position);
    let after = label_indices(len, split, position + 1);
    lemma_next_tail(split, position);
    assert(after =~= seq![k + 1] + before.drop_first());
    let first = label(alphabet, split, position);
    let second = label(alphabet, split, position + 1);
    assert(second =~= first.drop_last().push(alphabet[(k + 1) as int])) by {
        assert forall|i: int| 0 <= i < first.len() - 1 implies first[i] == second[i] by {
            assert(before[before.len() - 1 - i] == after[after.len() - 1 - i]);
        }
    }
}

/// The digits of the next rank, when the first `n` digits are at their end: these start again, the
/// digit behind them is counted up, and there is one more digit if there is none behind them.
proof fn lemma_count_up(split: nat, heads: nat, rank: nat, n: int)
    requires
        heads > 0,
        0 <= n <= head_indices(split, heads, rank).len(),
        forall|i: int|
            0 <= i < n ==> #[trigger] head_indices(split, heads, rank)[i] == split + heads,
        n < head_indices(split, heads, rank).len() ==> head_indices(split, heads, rank)[n] < split
            + heads,
    ensures
        ({
            let before = head_indices(split, heads, rank);
            let after = head_indices(split, heads, rank + 1);
            &&& after.len() == if n < before.len() {
                before.len()
            } else {
                before.len() + 1
            }
            &&& forall|i: int| 0 <= i < n ==> #[trigger] after[i] == split + 1
            &&& after[n] == if n < before.len() {
                before[n] + 1
            } else {
                split + 1
            }
            &&& forall|i: int| n < i < before.len() ==> #[trigger] after[i] == before[i]
        }),
    decreases n,
{
    let before = head_indices(split, heads, rank);
    let after = head_indices(split, heads, rank + 1);
    lemma_next_head(split, heads, rank);
    if rank > 0 {
        let rest = ((rank - 1) as nat) / heads;
        if n > 0 {
            assert(before[0] == split + heads);
            let inner = before.drop_first();
            assert(inner == head_indices(split, heads, rest));
            assert forall|i: int| 0 <= i < n - 1 implies #[trigger] inner[i] == split + heads by {
                assert(before[i + 1] == split + heads);
            }
            lemma_count_up(split, heads, rest, n - 1);
            let next = head_indices(split, heads, rest + 1);
            assert(after =~= seq![split + 1] + next);
            assert forall|i: int| 0 <= i < n implies #[trigger] after[i] == split + 1 by {
                if i > 0 {
                    assert(next[i - 1] == split + 1);
                }
            }
            assert forall|i: int| n < i < before.len() implies #[trigger] after[i] == before[i] by {
                assert(next[i - 1] == inner[i - 1]);
            }
        } else {
            assert(after =~= seq![before[0] + 1] + before.drop_first());
        }
    }
}

/// Labels are counted up like the wheels of a counter. Behind the label whose last character is the
/// last one which ends labels, and whose `n` characters in front of it are at the end of the
/// alphabet, comes the one in which these start again: the last one with the first character of the
/// alphabet, the others with the first one which does not end labels. The character in front of
/// them is counted up, and there is one more character if there is none in front of them.
pub proof fn labels_are_counted_up(alphabet: Seq<char>, split: nat, position: nat, n: int)
    requires
        split + 1 < alphabet.len(),
        label_indices(alphabet.len(), split, position)[0] == split,
        0 <= n < label_indices(alphabet.len(), split, position).len(),
        forall|i: int|
            1 <= i <= n ==> #[trigger] label_indices(alphabet.len(), split, position)[i]
                == alphabet.len() - 1,
        n + 1 < label_indices(alphabet.len(), split, position).len() ==> label_indices(
            alphabet.len(),
            split,
            position,
        )[n + 1] < alphabet.len() - 1,
    ensures
        ({
            let before = label_indices(alphabet.len(), split, position);
            let after = label_indices(alphabet.len(), split, position + 1);
            let next = label(alphabet, split, position + 1);
            &&& after.len() == if n + 1 < before.len() {
                before.len()
            } else {
                before.len() + 1
            }
            &&& after[0] == 0
            &&& forall|i: int| 1 <= i <= n ==> #[trigger] after[i] == split + 1
            &&& after[n + 1] == if n + 1 < before.len() {
                before[n + 1] + 1
            } else {
                split + 1
            }
            &&& forall|i: int| n + 1 < i < before.len() ==> #[trigger] after[i] == before[i]
            &&& next.len() == after.len()
            &&& forall|i: int|
                0 <= i < next.len() ==> #[trigger] next[i] == alphabet[after[next.len() - 1 - i] as int]
        }),
{
    let len = alphabet.len();
    let heads = (len - split - 1) as nat;
    let rank = position / (split + 1);
    let before = label_indices(len, split, position);
    let after = label_indices(len, split, position + 1);
    lemma_next_tail(split, position);
    let digits = head_indices(split, heads, rank);
    let next = head_indices(split, heads, rank + 1);
    assert forall|i: int| 0 <= i < n implies #[trigger] digits[i] == split + heads by {
        assert(before[i + 1] == len - 1);
    }
    if n < digits.len() {
        assert(before[n + 1] == digits[n]);
    }
    lemma_count_up(split, heads, rank, n);
    assert(after =~= seq![0nat] + next);
    assert forall|i: int| 1 <= i <= n implies #[trigger] after[i] == split + 1 by {
        assert(next[i - 1] == split + 1);
    }
    assert forall|i: int| n + 1 < i < before.len() implies #[trigger] after[i] == before[i] by {
        assert(next[i - 1] == digits[i - 1]);
    }
}

/// The last character of a label is one of those which end labels, and every other character is one
/// of those behind them.
pub proof fn only_the_last_character_ends_a_label(
    alphabet: Seq<char>,
    split: nat,
    position: nat,
    i: int,
)
    requires
        has_label(alphabet.len(), split, position),
        0 <= i < label(alphabet, split, position).len(),
    ensures
        i == label(alphabet, split, position).len() - 1 ==> exists|k: int|
            0 <= k <= split && label(alphabet, split, position)[i] == #[trigger] alphabet[k],
        i < label(alphabet, split, position).len() - 1 ==> exists|k: int|
            split < k < alphabet.len() && label(alphabet, split, position)[i]
                == #[trigger] alphabet[k],
{
    let len = alphabet.len();
    let heads = (len - split - 1) as nat;
    let indices = label_indices(len, split, position);
    lemma_next_tail(split, position);
    lemma_head_range(split, heads, position / (split + 1));
    let k = indices[indices.len() - 1 - i];
    assert(label(alphabet, split, position)[i] == alphabet[k as int]);
    if i < indices.len() - 1 {
        assert(k == head_indices(split, heads, position / (split + 1))[indices.len() - 2 - i]);
    }
}

/// An alphabet runs out of labels only if all of its characters end labels: then there is one label
/// for every character.
pub proof fn labels_run_out_without_heads(len: nat, split: nat, position: nat)
    requires
        split < len,
    ensures
        split + 1 < len ==> has_label(len, split, position),
        split + 1 == len ==> (has_label(len, split, position) <==> position < len),
{
}

} // verus!
