use vstd::prelude::*;

verus! {

/// A feature name, as a sequence of characters.
pub type Name = Seq<char>;

/// The order of names: character by character, by code point, a name before
/// any longer name that starts with it.
pub open spec fn name_lt(a: Name, b: Name) -> bool
    decreases a.len(),
{
    if a.len() == 0 {
        b.len() > 0
    } else if b.len() == 0 {
        false
    } else if a[0] != b[0] {
        a[0] < b[0]
    } else {
        name_lt(a.drop_first(), b.drop_first())
    }
}

/// No name comes before itself.
pub proof fn lemma_name_lt_irreflexive(a: Name)
    ensures
        !name_lt(a, a),
    decreases a.len(),
{
    if a.len() > 0 {
        lemma_name_lt_irreflexive(a.drop_first());
    }
}

/// Of two different names, one comes first.
pub proof fn lemma_name_lt_total(a: Name, b: Name)
    ensures
        a == b || name_lt(a, b) || name_lt(b, a),
    decreases a.len(),
{
    if a.len() > 0 && b.len() > 0 {
        if a[0] == b[0] {
            lemma_name_lt_total(a.drop_first(), b.drop_first());
            if a.drop_first() == b.drop_first() {
                assert(a =~= seq![a[0]] + a.drop_first());
                assert(b =~= seq![b[0]] + b.drop_first());
            }
        }
    } else if a.len() == 0 && b.len() == 0 {
        assert(a =~= b);
    }
}

/// The order of names is transitive.
pub proof fn lemma_name_lt_transitive(a: Name, b: Name, c: Name)
    requires
        name_lt(a, b),
        name_lt(b, c),
    ensures
        name_lt(a, c),
    decreases a.len(),
{
    if a.len() > 0 && b.len() > 0 && c.len() > 0 && a[0] == b[0] && b[0] == c[0] {
        lemma_name_lt_transitive(a.drop_first(), b.drop_first(), c.drop_first());
    }
}

/// The order of name sequences: name by name, a sequence before any longer
/// one that starts with it.
pub open spec fn names_lt(a: Seq<Name>, b: Seq<Name>) -> bool
    decreases a.len(),
{
    if a.len() == 0 {
        b.len() > 0
    } else if b.len() == 0 {
        false
    } else if a[0] != b[0] {
        name_lt(a[0], b[0])
    } else {
        names_lt(a.drop_first(), b.drop_first())
    }
}

/// Of two different name sequences, one comes first.
pub proof fn lemma_names_lt_total(a: Seq<Name>, b: Seq<Name>)
    ensures
        a == b || names_lt(a, b) || names_lt(b, a),
    decreases a.len(),
{
    if a.len() > 0 && b.len() > 0 {
        if a[0] == b[0] {
            lemma_names_lt_total(a.drop_first(), b.drop_first());
            if a.drop_first() == b.drop_first() {
                assert(a =~= seq![a[0]] + a.drop_first());
                assert(b =~= seq![b[0]] + b.drop_first());
            }
        } else {
            lemma_name_lt_total(a[0], b[0]);
        }
    } else if a.len() == 0 && b.len() == 0 {
        assert(a =~= b);
    }
}

/// The order of name sequences is transitive.
pub proof fn lemma_names_lt_transitive(a: Seq<Name>, b: Seq<Name>, c: Seq<Name>)
    requires
        names_lt(a, b),
        names_lt(b, c),
    ensures
        names_lt(a, c),
    decreases a.len(),
{
    if a.len() > 0 && b.len() > 0 && c.len() > 0 {
        if a[0] == b[0] && b[0] == c[0] {
            lemma_names_lt_transitive(a.drop_first(), b.drop_first(), c.drop_first());
        } else if a[0] != b[0] && b[0] != c[0] {
            lemma_name_lt_transitive(a[0], b[0], c[0]);
            if a[0] == c[0] {
                lemma_name_lt_transitive(a[0], b[0], a[0]);
                lemma_name_lt_irreflexive(a[0]);
            }
        }
    }
}

/// Whether `a` comes before `b` in the order of names.
pub fn name_less(a: &str, b: &str) -> (r: bool)
    ensures
        r == name_lt(a@, b@),
{
    let la = a.unicode_len();
    let lb = b.unicode_len();
    let mut i: usize = 0;
    assert(a@.skip(0) =~= a@);
    assert(b@.skip(0) =~= b@);
    while i < la && i < lb
        invariant
            la == a@.len(),
            lb == b@.len(),
            i <= la,
            i <= lb,
            name_lt(a@, b@) == name_lt(a@.skip(i as int), b@.skip(i as int)),
        decreases la - i,
    {
        let ca = a.get_char(i);
        let cb = b.get_char(i);
        if ca != cb {
            return ca < cb;
        }
        assert(a@.skip(i as int).drop_first() =~= a@.skip(i + 1));
        assert(b@.skip(i as int).drop_first() =~= b@.skip(i + 1));
        i = i + 1;
    }
    i < lb
}

/// The names joined by commas, in the order given.
pub open spec fn joined(names: Seq<Name>) -> Seq<char>
    decreases names.len(),
{
    if names.len() == 0 {
        Seq::empty()
    } else if names.len() == 1 {
        names[0]
    } else {
        joined(names.drop_last()) + ","@ + names.last()
    }
}

/// `s[i..j]` is one whole non-empty piece of `s` between commas.
pub open spec fn is_piece(s: Seq<char>, i: int, j: int) -> bool {
    &&& 0 <= i < j <= s.len()
    &&& (i == 0 || s[i - 1] == ',')
    &&& (j == s.len() || s[j] == ',')
    &&& forall|m: int| i <= m < j ==> s[m] != ','
}

/// The non-empty names that stand between commas in `s`.
pub open spec fn pieces(s: Seq<char>) -> Set<Name> {
    Set::new(|n: Name| exists|i: int, j: int| #[trigger] is_piece(s, i, j) && s.subrange(i, j) == n)
}

/// The pieces of `s` that end before position `end`.
pub open spec fn pieces_before(s: Seq<char>, end: int) -> Set<Name> {
    Set::new(|n: Name| exists|i: int, j: int| #[trigger] is_piece(s, i, j) && j < end && s.subrange(i, j) == n)
}

/// Between `start` and `k` no comma stands: the only piece that ends in
/// `start..=k` is `s[start..k]`.
pub proof fn lemma_pieces_step(s: Seq<char>, start: int, k: int)
    requires
        0 <= start <= k <= s.len(),
        start == 0 || s[start - 1] == ',',
        forall|m: int| start <= m < k ==> s[m] != ',',
        k == s.len() || s[k] == ',',
    ensures
        forall|i: int, j: int| #[trigger] is_piece(s, i, j) && start <= j <= k ==> i == start && j == k,
        start < k ==> is_piece(s, start, k),
{
    assert forall|i: int, j: int| #[trigger] is_piece(s, i, j) && start <= j <= k implies i == start && j == k by {
        if j < k {
            assert(s[j] != ',');
        }
        if i > start {
            assert(s[i - 1] != ',');
        }
        if i < start {
            assert(s[start - 1] != ',');
        }
    }
}

/// The set of a sequence with one more element.
pub proof fn lemma_push_to_set<A>(s: Seq<A>, x: A)
    ensures
        s.push(x).to_set() == s.to_set().insert(x),
{
    assert forall|y: A| s.push(x).to_set().contains(y) <==> s.to_set().insert(x).contains(y) by {
        if s.push(x).contains(y) {
            let k = choose|k: int| 0 <= k < s.push(x).len() && s.push(x)[k] == y;
            if k < s.len() {
                assert(s[k] == y);
            }
        }
        if s.contains(y) {
            let k = choose|k: int| 0 <= k < s.len() && s[k] == y;
            assert(s.push(x)[k] == y);
        }
        if y == x {
            assert(s.push(x)[s.len() as int] == y);
        }
    }
    assert(s.push(x).to_set() =~= s.to_set().insert(x));
}

} // verus!
