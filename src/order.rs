use vstd::prelude::*;

verus! {

/// Lexicographic order on words, character by character; a proper prefix comes first.
pub open spec fn word_less(a: Seq<char>, b: Seq<char>) -> bool
    decreases a.len(),
{
    if a.len() == 0 {
        b.len() > 0
    } else if b.len() == 0 {
        false
    } else if a[0] != b[0] {
        a[0] < b[0]
    } else {
        word_less(a.drop_first(), b.drop_first())
    }
}

/// The ranking rule: a higher count comes first, and among equal counts the smaller word.
pub open spec fn ranks_before(a: (Seq<char>, nat), b: (Seq<char>, nat)) -> bool {
    a.1 > b.1 || (a.1 == b.1 && word_less(a.0, b.0))
}

/// No word comes before itself.
pub proof fn lemma_word_less_irreflexive(a: Seq<char>)
    ensures
        !word_less(a, a),
    decreases a.len(),
{
    if a.len() > 0 {
        lemma_word_less_irreflexive(a.drop_first());
    }
}

/// Word order is transitive.
pub proof fn lemma_word_less_transitive(a: Seq<char>, b: Seq<char>, c: Seq<char>)
    requires
        word_less(a, b),
        word_less(b, c),
    ensures
        word_less(a, c),
    decreases a.len(),
{
    if a.len() > 0 && b.len() > 0 && c.len() > 0 && a[0] == b[0] && b[0] == c[0] {
        lemma_word_less_transitive(a.drop_first(), b.drop_first(), c.drop_first());
    }
}

/// Of two different words, one comes before the other.
pub proof fn lemma_word_less_total(a: Seq<char>, b: Seq<char>)
    requires
        a != b,
    ensures
        word_less(a, b) || word_less(b, a),
    decreases a.len(),
{
    if a.len() > 0 && b.len() > 0 && a[0] == b[0] {
        if a.drop_first() == b.drop_first() {
            assert(a =~= seq![a[0]] + a.drop_first());
            assert(b =~= seq![b[0]] + b.drop_first());
        }
        lemma_word_less_total(a.drop_first(), b.drop_first());
    } else if a.len() == 0 && b.len() == 0 {
        assert(a =~= b);
    }
}

/// The ranking rule is a strict order.
pub proof fn lemma_ranks_before_transitive(
    a: (Seq<char>, nat),
    b: (Seq<char>, nat),
    c: (Seq<char>, nat),
)
    requires
        ranks_before(a, b),
        ranks_before(b, c),
    ensures
        ranks_before(a, c),
{
    if a.1 == b.1 && b.1 == c.1 {
        lemma_word_less_transitive(a.0, b.0, c.0);
    }
}

/// No entry ranks before itself, and of two entries one ranks before the other
/// where their words differ.
pub proof fn lemma_ranks_before_strict(a: (Seq<char>, nat), b: (Seq<char>, nat))
    ensures
        !ranks_before(a, a),
        a.0 != b.0 ==> ranks_before(a, b) || ranks_before(b, a),
        ranks_before(a, b) ==> !ranks_before(b, a),
{
    lemma_word_less_irreflexive(a.0);
    if a.0 != b.0 {
        lemma_word_less_total(a.0, b.0);
    }
    if ranks_before(a, b) && ranks_before(b, a) {
        lemma_ranks_before_transitive(a, b, a);
    }
}

/// Compares two ASCII words in word order.
pub fn word_lt(a: &str, b: &str) -> (r: bool)
    requires
        vstd::utf8::is_ascii_chars(a@),
        vstd::utf8::is_ascii_chars(b@),
    ensures
        r == word_less(a@, b@),
{
    broadcast use vstd::string::is_ascii_spec_bytes;
    let x = a.as_bytes();
    let y = b.as_bytes();
    assert(vstd::string::is_ascii(a));
    assert(vstd::string::is_ascii(b));
    assert(a@.skip(0) =~= a@);
    assert(b@.skip(0) =~= b@);
    let mut i: usize = 0;
    while i < x.len() && i < y.len()
        invariant
            x@.len() == a@.len(),
            y@.len() == b@.len(),
            forall|j: int| 0 <= j < x@.len() ==> x@[j] == a@[j] as u8,
            forall|j: int| 0 <= j < y@.len() ==> y@[j] == b@[j] as u8,
            vstd::utf8::is_ascii_chars(a@),
            vstd::utf8::is_ascii_chars(b@),
            i <= x@.len(),
            i <= y@.len(),
            word_less(a@, b@) == word_less(a@.skip(i as int), b@.skip(i as int)),
        decreases x@.len() - i,
    {
        let ghost p = a@[i as int];
        let ghost q = b@[i as int];
        assert(a@.skip(i as int)[0] == p);
        assert(b@.skip(i as int)[0] == q);
        if x[i] != y[i] {
            assert(p != q);
            return x[i] < y[i];
        }
        assert(p == q);
        assert(a@.skip(i as int).drop_first() =~= a@.skip(i + 1));
        assert(b@.skip(i as int).drop_first() =~= b@.skip(i + 1));
        i = i + 1;
    }
    x.len() < y.len()
}

} // verus!
