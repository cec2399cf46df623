//! The orders in which names are kept.

use vstd::prelude::*;
use vstd::std_specs::iter::IteratorSpec;
use vstd::string::*;

verus! {

/// `lt` is irreflexive and transitive, and relates any two different values one way.
pub open spec fn strict_total_order<T>(lt: spec_fn(T, T) -> bool) -> bool {
    &&& forall|a: T| !#[trigger] lt(a, a)
    &&& forall|a: T, b: T, c: T| #[trigger] lt(a, b) && #[trigger] lt(b, c) ==> lt(a, c)
    &&& forall|a: T, b: T| a == b || #[trigger] lt(a, b) || lt(b, a)
}

/// `a` comes before `b` when both are compared element by element from the front, a proper
/// prefix coming first.
pub open spec fn lexicographic<T>(a: Seq<T>, b: Seq<T>, lt: spec_fn(T, T) -> bool) -> bool
    decreases a.len(),
{
    if b.len() == 0 {
        false
    } else if a.len() == 0 {
        true
    } else {
        lt(a[0], b[0]) || (a[0] == b[0] && lexicographic(a.skip(1), b.skip(1), lt))
    }
}

/// Characters in the order of their code points.
pub open spec fn char_order() -> spec_fn(char, char) -> bool {
    |a: char, b: char| (a as int) < (b as int)
}

/// `a` comes before `b` in the order of strings: character by character, by code point.
pub open spec fn text_before(a: Seq<char>, b: Seq<char>) -> bool {
    lexicographic(a, b, char_order())
}

/// [`text_before`] as a value.
pub open spec fn text_order() -> spec_fn(Seq<char>, Seq<char>) -> bool {
    |a: Seq<char>, b: Seq<char>| text_before(a, b)
}

proof fn lemma_lexicographic_irreflexive<T>(a: Seq<T>, lt: spec_fn(T, T) -> bool)
    requires
        strict_total_order(lt),
    ensures
        !lexicographic(a, a, lt),
    decreases a.len(),
{
    if a.len() > 0 {
        lemma_lexicographic_irreflexive(a.skip(1), lt);
    }
}

proof fn lemma_lexicographic_transitive<T>(
    a: Seq<T>,
    b: Seq<T>,
    c: Seq<T>,
    lt: spec_fn(T, T) -> bool,
)
    requires
        strict_total_order(lt),
        lexicographic(a, b, lt),
        lexicographic(b, c, lt),
    ensures
        lexicographic(a, c, lt),
    decreases a.len(),
{
    if a.len() > 0 && a[0] == b[0] && b[0] == c[0] {
        lemma_lexicographic_transitive(a.skip(1), b.skip(1), c.skip(1), lt);
    }
}

proof fn lemma_lexicographic_total<T>(a: Seq<T>, b: Seq<T>, lt: spec_fn(T, T) -> bool)
    requires
        strict_total_order(lt),
    ensures
        a == b || lexicographic(a, b, lt) || lexicographic(b, a, lt),
    decreases a.len(),
{
    if a.len() == 0 || b.len() == 0 {
        if a.len() == b.len() {
            assert(a =~= b);
        }
    } else {
        lemma_lexicographic_total(a.skip(1), b.skip(1), lt);
        if a[0] == b[0] && a.skip(1) == b.skip(1) {
            assert(a =~= seq![a[0]] + a.skip(1));
            assert(b =~= seq![b[0]] + b.skip(1));
        }
        assert(a[0] == b[0] || lt(a[0], b[0]) || lt(b[0], a[0]));
    }
}

/// Comparing element by element turns a strict total order of elements into one of sequences.
pub proof fn lemma_lexicographic_order<T>(lt: spec_fn(T, T) -> bool)
    requires
        strict_total_order(lt),
    ensures
        strict_total_order(|a: Seq<T>, b: Seq<T>| lexicographic(a, b, lt)),
{
    let lex = |a: Seq<T>, b: Seq<T>| lexicographic(a, b, lt);
    assert forall|a: Seq<T>| !#[trigger] lex(a, a) by {
        lemma_lexicographic_irreflexive(a, lt);
    }
    assert forall|a: Seq<T>, b: Seq<T>, c: Seq<T>| #[trigger]
        lex(a, b) && #[trigger] lex(b, c) implies lex(a, c) by {
        lemma_lexicographic_transitive(a, b, c, lt);
    }
    assert forall|a: Seq<T>, b: Seq<T>| a == b || #[trigger] lex(a, b) || lex(b, a) by {
        lemma_lexicographic_total(a, b, lt);
    }
}

/// The order of strings is a strict total order.
pub proof fn lemma_text_order()
    ensures
        strict_total_order(text_order()),
{
    assert forall|a: char, b: char| a == b || #[trigger] char_order()(a, b) || char_order()(
        b,
        a,
    ) by {
        assert(a as int == b as int ==> a == b);
    }
    lemma_lexicographic_order(char_order());
    assert(text_order() =~= (|a: Seq<char>, b: Seq<char>| lexicographic(a, b, char_order())));
}

/// Whether `a` comes before `b` in the order of strings.
pub fn str_before(a: &str, b: &str) -> (r: bool)
    ensures
        r == text_before(a@, b@),
{
    let mut x = a.chars();
    let mut y = b.chars();
    let ghost mut i: int = 0;
    loop
        invariant
            0 <= i <= a@.len(),
            i <= b@.len(),
            x.remaining() == a@.skip(i),
            y.remaining() == b@.skip(i),
            text_before(a@, b@) == text_before(a@.skip(i), b@.skip(i)),
        decreases a@.len() - i,
    {
        let p = x.next();
        let q = y.next();
        match q {
            None => {
                return false;
            },
            Some(d) => match p {
                None => {
                    return true;
                },
                Some(c) => {
                    if c != d {
                        return c < d;
                    }
                    proof {
                        assert(a@.skip(i).skip(1) =~= a@.skip(i + 1));
                        assert(b@.skip(i).skip(1) =~= b@.skip(i + 1));
                        i = i + 1;
                    }
                },
            },
        }
    }
}

/// Strings are ordered by the first character in which they differ, and a string comes before
/// everything that goes on from it.
pub proof fn law_text_order_goes_by_first_difference(
    prefix: Seq<char>,
    c: char,
    x: Seq<char>,
    d: char,
    y: Seq<char>,
)
    ensures
        text_before(prefix, prefix + seq![c] + x),
        !text_before(prefix + seq![c] + x, prefix),
        (c as int) < (d as int) ==> text_before(prefix + seq![c] + x, prefix + seq![d] + y),
        (c as int) > (d as int) ==> !text_before(prefix + seq![c] + x, prefix + seq![d] + y),
        c == d ==> (text_before(prefix + seq![c] + x, prefix + seq![d] + y) <==> text_before(x, y)),
    decreases prefix.len(),
{
    let a = prefix + seq![c] + x;
    let b = prefix + seq![d] + y;
    if prefix.len() == 0 {
        assert(a[0] == c && b[0] == d);
        assert(a.skip(1) =~= x);
        assert(b.skip(1) =~= y);
    } else {
        let rest = prefix.skip(1);
        assert(a.skip(1) =~= rest + seq![c] + x);
        assert(b.skip(1) =~= rest + seq![d] + y);
        assert(a[0] == prefix[0] && b[0] == prefix[0]);
        law_text_order_goes_by_first_difference(rest, c, x, d, y);
    }
}

} // verus!
