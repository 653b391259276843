//! Three-way comparison and the lexicographic order on sequences of integers.

use vstd::prelude::*;

verus! {

/// How one value stands to another in a total order.
#[derive(Clone, Copy, Debug, PartialEq, Eq, Structural)]
pub enum Comparison {
    Less,
    Equal,
    Greater,
}

impl Comparison {
    /// The comparison with its sides exchanged.
    pub open spec fn flip(self) -> Comparison {
        match self {
            Comparison::Less => Comparison::Greater,
            Comparison::Equal => Comparison::Equal,
            Comparison::Greater => Comparison::Less,
        }
    }

    /// This comparison, or `next` where this one is a tie.
    pub open spec fn or_tie(self, next: Comparison) -> Comparison {
        match self {
            Comparison::Equal => next,
            _ => self,
        }
    }
}

/// The order of two integers.
pub open spec fn int_order(a: int, b: int) -> Comparison {
    if a < b {
        Comparison::Less
    } else if a == b {
        Comparison::Equal
    } else {
        Comparison::Greater
    }
}

/// The lexicographic order of `a` and `b` from position `from` on: the first
/// position where they differ decides, and a proper prefix comes first.
pub open spec fn lex_order_from(a: Seq<int>, b: Seq<int>, from: int) -> Comparison
    decreases a.len() - from,
{
    if from >= a.len() {
        if from >= b.len() {
            Comparison::Equal
        } else {
            Comparison::Less
        }
    } else if from >= b.len() {
        Comparison::Greater
    } else if a[from] != b[from] {
        int_order(a[from], b[from])
    } else {
        lex_order_from(a, b, from + 1)
    }
}

/// The lexicographic order of two sequences of integers.
pub open spec fn lex_order(a: Seq<int>, b: Seq<int>) -> Comparison {
    lex_order_from(a, b, 0)
}

/// From `from` on, two sequences tie exactly when they agree.
proof fn lemma_lex_equal_from(a: Seq<int>, b: Seq<int>, from: int)
    requires
        0 <= from,
    ensures
        lex_order_from(a, b, from) == Comparison::Equal <==> {
            &&& a.len() == b.len() || (from >= a.len() && from >= b.len())
            &&& forall|i: int| from <= i < a.len() && i < b.len() ==> a[i] == b[i]
        },
    decreases a.len() - from,
{
    if from < a.len() && from < b.len() {
        lemma_lex_equal_from(a, b, from + 1);
    }
}

/// Two sequences tie exactly when they are equal.
pub proof fn lemma_lex_equal(a: Seq<int>, b: Seq<int>)
    ensures
        lex_order(a, b) == Comparison::Equal <==> a == b,
{
    lemma_lex_equal_from(a, b, 0);
    if lex_order(a, b) == Comparison::Equal {
        assert(a =~= b);
    }
}

/// Exchanging the sides exchanges `Less` and `Greater`.
pub proof fn lemma_lex_flip_from(a: Seq<int>, b: Seq<int>, from: int)
    requires
        0 <= from,
    ensures
        lex_order_from(b, a, from) == lex_order_from(a, b, from).flip(),
    decreases a.len() - from,
{
    if from < a.len() && from < b.len() && a[from] == b[from] {
        lemma_lex_flip_from(a, b, from + 1);
    }
}

/// Exchanging the sides exchanges `Less` and `Greater`.
pub proof fn lemma_lex_flip(a: Seq<int>, b: Seq<int>)
    ensures
        lex_order(b, a) == lex_order(a, b).flip(),
{
    lemma_lex_flip_from(a, b, 0);
}

/// `Less` carries over a middle sequence.
pub proof fn lemma_lex_transitive_from(a: Seq<int>, b: Seq<int>, c: Seq<int>, from: int)
    requires
        0 <= from,
        lex_order_from(a, b, from) == Comparison::Less,
        lex_order_from(b, c, from) == Comparison::Less,
    ensures
        lex_order_from(a, c, from) == Comparison::Less,
    decreases b.len() - from,
{
    if from < a.len() && from < b.len() && from < c.len() {
        if a[from] == b[from] && b[from] == c[from] {
            lemma_lex_transitive_from(a, b, c, from + 1);
        }
    }
}

/// `Less` carries over a middle sequence.
pub proof fn lemma_lex_transitive(a: Seq<int>, b: Seq<int>, c: Seq<int>)
    requires
        lex_order(a, b) == Comparison::Less,
        lex_order(b, c) == Comparison::Less,
    ensures
        lex_order(a, c) == Comparison::Less,
{
    lemma_lex_transitive_from(a, b, c, 0);
}

/// An integer type of the machine, ordered as its numbers are.
pub trait Number: Copy {
    /// The number that a value stands for.
    spec fn number(self) -> int;

    /// Two values that stand for one number are one value.
    proof fn lemma_one_number(self, other: Self)
        ensures
            self.number() == other.number() ==> self == other,
    ;

    /// Whether this number is below `other`.
    fn below(self, other: Self) -> (r: bool)
        ensures
            r == (self.number() < other.number()),
    ;
}

impl Number for u8 {
    open spec fn number(self) -> int {
        self as int
    }

    proof fn lemma_one_number(self, other: Self) {
    }

    fn below(self, other: Self) -> (r: bool) {
        self < other
    }
}

impl Number for usize {
    open spec fn number(self) -> int {
        self as int
    }

    proof fn lemma_one_number(self, other: Self) {
    }

    fn below(self, other: Self) -> (r: bool) {
        self < other
    }
}

impl Number for i64 {
    open spec fn number(self) -> int {
        self as int
    }

    proof fn lemma_one_number(self, other: Self) {
    }

    fn below(self, other: Self) -> (r: bool) {
        self < other
    }
}

/// The numbers that a sequence of machine integers stands for.
pub open spec fn numbers<T: Number>(s: Seq<T>) -> Seq<int> {
    s.map_values(|x: T| x.number())
}

/// Two sequences that stand for one sequence of numbers are one sequence.
pub proof fn lemma_numbers_injective<T: Number>(a: Seq<T>, b: Seq<T>)
    requires
        numbers(a) == numbers(b),
    ensures
        a == b,
{
    assert(a.len() == numbers(a).len());
    assert(b.len() == numbers(b).len());
    assert forall|i: int| 0 <= i < a.len() implies a[i] == b[i] by {
        assert(numbers(a)[i] == a[i].number());
        assert(numbers(b)[i] == b[i].number());
        a[i].lemma_one_number(b[i]);
    }
    assert(a =~= b);
}

/// The lexicographic order of two lists of machine integers.
pub fn compare_numbers<T: Number>(a: &[T], b: &[T]) -> (r: Comparison)
    ensures
        r == lex_order(numbers(a@), numbers(b@)),
{
    let ghost x = numbers(a@);
    let ghost y = numbers(b@);
    let mut i: usize = 0;
    while i < a.len() && i < b.len()
        invariant
            i <= a.len(),
            i <= b.len(),
            x == numbers(a@),
            y == numbers(b@),
            lex_order(x, y) == lex_order_from(x, y, i as int),
        decreases a.len() - i,
    {
        if a[i].below(b[i]) {
            return Comparison::Less;
        }
        if b[i].below(a[i]) {
            return Comparison::Greater;
        }
        i = i + 1;
    }
    if i < b.len() {
        Comparison::Less
    } else if i < a.len() {
        Comparison::Greater
    } else {
        Comparison::Equal
    }
}

} // verus!
