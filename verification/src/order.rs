//! Strict total orders, and the lexicographic order that they give to sequences.

use vstd::prelude::*;

verus! {

/// How one value stands to another.
#[derive(Clone, Copy, Debug, PartialEq, Eq, Structural)]
pub enum Rank {
    Less,
    Equal,
    Greater,
}

/// A strict total order on mathematical values.
pub trait TotalOrder: Sized {
    /// Whether `self` comes strictly before `other`.
    spec fn before(self, other: Self) -> bool;

    proof fn lemma_irreflexive(a: Self)
        ensures
            !a.before(a),
    ;

    proof fn lemma_transitive(a: Self, b: Self, c: Self)
        requires
            a.before(b),
            b.before(c),
        ensures
            a.before(c),
    ;

    proof fn lemma_total(a: Self, b: Self)
        ensures
            a.before(b) || a == b || b.before(a),
    ;
}

/// What a comparison of `a` with `b` answers.
pub open spec fn ranks<T: TotalOrder>(a: T, b: T, rank: Rank) -> bool {
    match rank {
        Rank::Less => a.before(b),
        Rank::Equal => a == b,
        Rank::Greater => b.before(a),
    }
}

/// Characters are ordered by their code points.
impl TotalOrder for char {
    open spec fn before(self, other: Self) -> bool {
        (self as int) < (other as int)
    }

    proof fn lemma_irreflexive(a: Self) {
    }

    proof fn lemma_transitive(a: Self, b: Self, c: Self) {
    }

    proof fn lemma_total(a: Self, b: Self) {
    }
}

/// The lexicographic order: the first differing position decides, and a proper prefix comes
/// before what it is a prefix of.
pub open spec fn lexicographic<T: TotalOrder>(a: Seq<T>, b: Seq<T>) -> bool
    decreases a.len(),
{
    if b.len() == 0 {
        false
    } else if a.len() == 0 {
        true
    } else {
        a[0].before(b[0]) || (a[0] == b[0] && lexicographic(a.drop_first(), b.drop_first()))
    }
}

proof fn lemma_lexicographic_irreflexive<T: TotalOrder>(a: Seq<T>)
    ensures
        !lexicographic(a, a),
    decreases a.len(),
{
    if a.len() > 0 {
        T::lemma_irreflexive(a[0]);
        lemma_lexicographic_irreflexive(a.drop_first());
    }
}

proof fn lemma_lexicographic_transitive<T: TotalOrder>(a: Seq<T>, b: Seq<T>, c: Seq<T>)
    requires
        lexicographic(a, b),
        lexicographic(b, c),
    ensures
        lexicographic(a, c),
    decreases a.len(),
{
    if a.len() > 0 {
        if a[0].before(b[0]) && b[0].before(c[0]) {
            T::lemma_transitive(a[0], b[0], c[0]);
        } else if a[0] == b[0] && b[0] == c[0] {
            if !a[0].before(b[0]) && !b[0].before(c[0]) {
                lemma_lexicographic_transitive(a.drop_first(), b.drop_first(), c.drop_first());
            }
        }
    }
}

proof fn lemma_lexicographic_total<T: TotalOrder>(a: Seq<T>, b: Seq<T>)
    ensures
        lexicographic(a, b) || a == b || lexicographic(b, a),
    decreases a.len(),
{
    if a.len() > 0 && b.len() > 0 {
        T::lemma_total(a[0], b[0]);
        lemma_lexicographic_total(a.drop_first(), b.drop_first());
        if a[0] == b[0] && a.drop_first() == b.drop_first() {
            assert(a =~= seq![a[0]] + a.drop_first());
            assert(b =~= seq![b[0]] + b.drop_first());
        }
    } else if a.len() == 0 && b.len() == 0 {
        assert(a =~= b);
    }
}

/// Sequences of ordered values are ordered lexicographically.
impl<T: TotalOrder> TotalOrder for Seq<T> {
    open spec fn before(self, other: Self) -> bool {
        lexicographic(self, other)
    }

    proof fn lemma_irreflexive(a: Self) {
        lemma_lexicographic_irreflexive(a);
    }

    proof fn lemma_transitive(a: Self, b: Self, c: Self) {
        lemma_lexicographic_transitive(a, b, c);
    }

    proof fn lemma_total(a: Self, b: Self) {
        lemma_lexicographic_total(a, b);
    }
}

/// Compares two texts character by character.
pub fn compare_text(a: &str, b: &str) -> (rank: Rank)
    ensures
        ranks(a@, b@, rank),
{
    let mut xs = a.chars();
    let mut ys = b.chars();
    loop
        invariant
            vstd::std_specs::iter::IteratorSpec::obeys_prophetic_iter_laws(&xs),
            vstd::std_specs::iter::IteratorSpec::obeys_prophetic_iter_laws(&ys),
            vstd::std_specs::iter::IteratorSpec::decrease(&xs) is Some,
            lexicographic(a@, b@) == lexicographic(vstd::std_specs::iter::IteratorSpec::remaining(&xs), vstd::std_specs::iter::IteratorSpec::remaining(&ys)),
            lexicographic(b@, a@) == lexicographic(vstd::std_specs::iter::IteratorSpec::remaining(&ys), vstd::std_specs::iter::IteratorSpec::remaining(&xs)),
            a@ == b@ <==> vstd::std_specs::iter::IteratorSpec::remaining(&xs) == vstd::std_specs::iter::IteratorSpec::remaining(&ys),
        decreases vstd::std_specs::iter::IteratorSpec::decrease(&xs)->0,
    {
        let ghost old_xs = vstd::std_specs::iter::IteratorSpec::remaining(&xs);
        let ghost old_ys = vstd::std_specs::iter::IteratorSpec::remaining(&ys);
        let x = xs.next();
        let y = ys.next();
        match (x, y) {
            (None, None) => {
                assert(old_xs =~= old_ys);
                return Rank::Equal;
            },
            (None, Some(_)) => {
                return Rank::Less;
            },
            (Some(_), None) => {
                return Rank::Greater;
            },
            (Some(c), Some(d)) => {
                if c < d {
                    return Rank::Less;
                }
                if d < c {
                    return Rank::Greater;
                }
                proof {
                    assert(old_xs =~= seq![c] + old_xs.drop_first());
                    assert(old_ys =~= seq![d] + old_ys.drop_first());
                }
            },
        }
    }
}

/// Whether two texts are the same.
pub fn same_text(a: &str, b: &str) -> (same: bool)
    ensures
        same == (a@ == b@),
{
    proof {
        <Seq<char> as TotalOrder>::lemma_irreflexive(a@);
    }
    match compare_text(a, b) {
        Rank::Equal => true,
        _ => false,
    }
}

/// Characters stand as their code points do, and sequences as their first elements that differ. A
/// sequence comes before those that go on where it ends.
pub proof fn lemma_order_of_texts(
    common: Seq<char>,
    a: char,
    b: char,
    rest: Seq<char>,
    other: Seq<char>,
)
    ensures
        a.before(b) <==> (a as int) < (b as int),
        a.before(b) ==> (common.push(a) + rest).before(common.push(b) + other),
        common.before(common.push(a) + rest),
    decreases common.len(),
{
    let (x, y) = (common.push(a) + rest, common.push(b) + other);
    if common.len() > 0 {
        lemma_order_of_texts(common.drop_first(), a, b, rest, other);
        assert(x.drop_first() =~= common.drop_first().push(a) + rest);
        assert(y.drop_first() =~= common.drop_first().push(b) + other);
        assert(x[0] == common[0] && y[0] == common[0]);
    }
}

/// Sequences stand as their first elements that differ, and a sequence comes before those that go
/// on where it ends.
pub proof fn lemma_order_of_sequences<T: TotalOrder>(
    common: Seq<T>,
    a: T,
    b: T,
    rest: Seq<T>,
    other: Seq<T>,
)
    ensures
        a.before(b) ==> (common.push(a) + rest).before(common.push(b) + other),
        common.before(common.push(a) + rest),
    decreases common.len(),
{
    let (x, y) = (common.push(a) + rest, common.push(b) + other);
    if common.len() > 0 {
        lemma_order_of_sequences(common.drop_first(), a, b, rest, other);
        assert(x.drop_first() =~= common.drop_first().push(a) + rest);
        assert(y.drop_first() =~= common.drop_first().push(b) + other);
        assert(x[0] == common[0] && y[0] == common[0]);
    }
}

/// A comparison tells which of two values comes first, and that they are equal just if neither
/// does.
pub proof fn lemma_ranks<T: TotalOrder>(a: T, b: T, rank: Rank)
    requires
        ranks(a, b, rank),
    ensures
        rank == Rank::Less <==> a.before(b),
        rank == Rank::Equal <==> a == b,
        rank == Rank::Greater <==> b.before(a),
{
    T::lemma_irreflexive(a);
    T::lemma_total(a, b);
    if a.before(b) && b.before(a) {
        T::lemma_transitive(a, b, a);
    }
}

} // verus!
