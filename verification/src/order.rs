//! Strict total orders: the lexicographic extension of an order to
//! sequences, and the order on characters that `str`'s `Ord` follows.

use vstd::prelude::*;

verus! {

/// Outcome of comparing two values.
#[derive(PartialEq, Eq, Structural, Clone, Copy, Debug)]
pub enum Rel {
    Less,
    Same,
    Greater,
}

/// `lt` is irreflexive, transitive and total on distinct values.
pub open spec fn strict_total<A>(lt: spec_fn(A, A) -> bool) -> bool {
    &&& forall|x: A| !(#[trigger] lt(x, x))
    &&& forall|x: A, y: A, z: A| #[trigger] lt(x, y) && #[trigger] lt(y, z) ==> lt(x, z)
    &&& forall|x: A, y: A| x != y ==> #[trigger] lt(x, y) || #[trigger] lt(y, x)
}

/// Lexicographic extension of `lt` to sequences (a proper prefix is smaller).
pub open spec fn lex_lt<A>(a: Seq<A>, b: Seq<A>, lt: spec_fn(A, A) -> bool) -> bool
    decreases a.len(),
{
    if a.len() == 0 {
        b.len() > 0
    } else if b.len() == 0 {
        false
    } else if lt(a[0], b[0]) {
        true
    } else if a[0] == b[0] {
        lex_lt(a.drop_first(), b.drop_first(), lt)
    } else {
        false
    }
}

/// The relation `lt` describes between `a` and `b`.
pub open spec fn rel_of<A>(a: A, b: A, lt: spec_fn(A, A) -> bool) -> Rel {
    if lt(a, b) {
        Rel::Less
    } else if a == b {
        Rel::Same
    } else {
        Rel::Greater
    }
}

pub proof fn lemma_lex_irreflexive<A>(a: Seq<A>, lt: spec_fn(A, A) -> bool)
    requires
        strict_total(lt),
    ensures
        !lex_lt(a, a, lt),
    decreases a.len(),
{
    if a.len() > 0 {
        assert(!lt(a[0], a[0]));
        lemma_lex_irreflexive(a.drop_first(), lt);
    }
}

pub proof fn lemma_lex_transitive<A>(a: Seq<A>, b: Seq<A>, c: Seq<A>, lt: spec_fn(A, A) -> bool)
    requires
        strict_total(lt),
        lex_lt(a, b, lt),
        lex_lt(b, c, lt),
    ensures
        lex_lt(a, c, lt),
    decreases a.len(),
{
    if a.len() > 0 && b.len() > 0 && c.len() > 0 {
        if lt(a[0], b[0]) && lt(b[0], c[0]) {
            assert(lt(a[0], c[0]));
        } else if lt(a[0], b[0]) {
            assert(b[0] == c[0]);
        } else if lt(b[0], c[0]) {
            assert(a[0] == b[0]);
        } else {
            lemma_lex_transitive(a.drop_first(), b.drop_first(), c.drop_first(), lt);
        }
    }
}

pub proof fn lemma_lex_total<A>(a: Seq<A>, b: Seq<A>, lt: spec_fn(A, A) -> bool)
    requires
        strict_total(lt),
        a != b,
    ensures
        lex_lt(a, b, lt) || lex_lt(b, a, lt),
    decreases a.len(),
{
    if a.len() == 0 || b.len() == 0 {
        if a.len() == 0 && b.len() == 0 {
            assert(a =~= b);
        }
    } else if a[0] == b[0] {
        if a.drop_first() == b.drop_first() {
            assert(a =~= seq![a[0]] + a.drop_first());
            assert(b =~= seq![b[0]] + b.drop_first());
        }
        lemma_lex_total(a.drop_first(), b.drop_first(), lt);
    } else {
        assert(lt(a[0], b[0]) || lt(b[0], a[0]));
    }
}

/// The lexicographic extension of a strict total order is a strict total order.
pub proof fn lemma_lex_strict_total<A>(lt: spec_fn(A, A) -> bool)
    requires
        strict_total(lt),
    ensures
        strict_total(|a: Seq<A>, b: Seq<A>| lex_lt(a, b, lt)),
{
    let l = |a: Seq<A>, b: Seq<A>| lex_lt(a, b, lt);
    assert forall|x: Seq<A>| !(#[trigger] l(x, x)) by {
        lemma_lex_irreflexive(x, lt);
    }
    assert forall|x: Seq<A>, y: Seq<A>, z: Seq<A>| #[trigger] l(x, y) && #[trigger] l(y, z) implies l(x, z) by {
        lemma_lex_transitive(x, y, z, lt);
    }
    assert forall|x: Seq<A>, y: Seq<A>| x != y implies #[trigger] l(x, y) || #[trigger] l(y, x) by {
        lemma_lex_total(x, y, lt);
    }
}

/// Order of characters by code point; UTF-8 byte order agrees with it.
pub open spec fn char_lt(x: char, y: char) -> bool {
    (x as u32) < (y as u32)
}

proof fn lemma_char_injective(x: char, y: char)
    ensures
        x != y ==> (x as u32) != (y as u32),
{
}

/// `char_lt` as a relation value.
pub open spec fn char_order() -> spec_fn(char, char) -> bool {
    |x: char, y: char| char_lt(x, y)
}

/// The order `str` and `String` compare by.
pub open spec fn text_lt(a: Seq<char>, b: Seq<char>) -> bool {
    lex_lt(a, b, char_order())
}

/// `text_lt` as a relation value.
pub open spec fn text_order() -> spec_fn(Seq<char>, Seq<char>) -> bool {
    |x: Seq<char>, y: Seq<char>| text_lt(x, y)
}

pub proof fn lemma_char_strict_total()
    ensures
        strict_total(char_order()),
{
    let c = char_order();
    assert forall|x: char, y: char| x != y implies #[trigger] c(x, y) || #[trigger] c(y, x) by {
        lemma_char_injective(x, y);
    }
}

pub proof fn lemma_text_strict_total()
    ensures
        strict_total(text_order()),
{
    lemma_char_strict_total();
    lemma_lex_strict_total(char_order());
    assert(text_order() =~= (|a: Seq<char>, b: Seq<char>| lex_lt(a, b, char_order())));
}

/// Compares two character sequences in the order of `text_lt`.
pub fn compare_chars(a: &Vec<char>, b: &Vec<char>) -> (r: Rel)
    ensures
        r == rel_of(a@, b@, text_order()),
{
    proof { lemma_char_strict_total(); }
    let mut i: usize = 0;
    while i < a.len() && i < b.len()
        invariant
            i <= a.len(),
            i <= b.len(),
            a@.take(i as int) == b@.take(i as int),
            strict_total(char_order()),
        decreases a.len() - i,
    {
        if a[i] != b[i] {
            proof { lemma_char_injective(a@[i as int], b@[i as int]); }
            if (a[i] as u32) < (b[i] as u32) {
                proof {
                    assert(char_order()(a@[i as int], b@[i as int]));
                    lemma_lex_at(a@, b@, i as int, char_order());
                }
                return Rel::Less;
            } else {
                proof {
                    assert(char_order()(b@[i as int], a@[i as int]));
                    lemma_lex_at(b@, a@, i as int, char_order());
                }
                return Rel::Greater;
            }
        }
        proof { lemma_take_step(a@, b@, i as int); }
        i = i + 1;
    }
    proof { lemma_lex_prefix(a@, b@, i as int, char_order()); }
    if a.len() < b.len() {
        Rel::Less
    } else if a.len() > b.len() {
        Rel::Greater
    } else {
        proof { lemma_lex_irreflexive(a@, char_order()); }
        Rel::Same
    }
}

/// Sequences that agree before position `i` and differ there by `lt`.
pub proof fn lemma_lex_at<A>(a: Seq<A>, b: Seq<A>, i: int, lt: spec_fn(A, A) -> bool)
    requires
        strict_total(lt),
        0 <= i < a.len(),
        i < b.len(),
        a.take(i) == b.take(i),
        lt(a[i], b[i]),
    ensures
        lex_lt(a, b, lt),
        !lex_lt(b, a, lt),
        a != b,
    decreases i,
{
    if i > 0 {
        assert(a[0] == a.take(i)[0]);
        assert(b[0] == b.take(i)[0]);
        assert(a.drop_first().take(i - 1) =~= a.take(i).drop_first());
        assert(b.drop_first().take(i - 1) =~= b.take(i).drop_first());
        lemma_lex_at(a.drop_first(), b.drop_first(), i - 1, lt);
    } else {
        assert(!lt(b[0], a[0])) by {
            if lt(b[0], a[0]) {
                assert(lt(a[0], a[0]));
            }
        }
        assert(a[0] != b[0]);
    }
}

/// Sequences that agree on the first `i` positions, where one of them ends.
pub proof fn lemma_lex_prefix<A>(a: Seq<A>, b: Seq<A>, i: int, lt: spec_fn(A, A) -> bool)
    requires
        strict_total(lt),
        0 <= i,
        i == a.len() || i == b.len(),
        i <= a.len(),
        i <= b.len(),
        a.take(i) == b.take(i),
    ensures
        lex_lt(a, b, lt) <==> a.len() < b.len(),
        lex_lt(b, a, lt) <==> b.len() < a.len(),
        a.len() == b.len() ==> a == b,
    decreases i,
{
    if i > 0 {
        assert(a[0] == a.take(i)[0]);
        assert(b[0] == b.take(i)[0]);
        assert(a.drop_first().take(i - 1) =~= a.take(i).drop_first());
        assert(b.drop_first().take(i - 1) =~= b.take(i).drop_first());
        lemma_lex_prefix(a.drop_first(), b.drop_first(), i - 1, lt);
        assert(!lt(a[0], a[0]));
        if a.len() == b.len() {
            assert(a =~= seq![a[0]] + a.drop_first());
            assert(b =~= seq![b[0]] + b.drop_first());
        }
    } else if a.len() == b.len() {
        assert(a =~= b);
    }
}

/// Step of a lexicographic comparison: the elements at `i` are equal.
pub proof fn lemma_take_step<A>(a: Seq<A>, b: Seq<A>, i: int)
    requires
        0 <= i < a.len(),
        i < b.len(),
        a.take(i) == b.take(i),
        a[i] == b[i],
    ensures
        a.take(i + 1) == b.take(i + 1),
{
    assert(a.take(i + 1) =~= a.take(i).push(a[i]));
    assert(b.take(i + 1) =~= b.take(i).push(b[i]));
}

} // verus!
