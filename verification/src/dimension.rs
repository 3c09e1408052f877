//! Canonical tag keys.
//!
//! A key is a list of `(name, value)` pairs kept in ascending order of name,
//! names compared as Rust compares strings: byte by byte over their UTF-8
//! encoding. Pairs that arrive in any order therefore end in one form.

use std::collections::HashMap;
use vstd::prelude::*;
use vstd::utf8::*;

verus! {

/// Lexicographic `<=` on byte strings.
pub open spec fn bytes_le(a: Seq<u8>, b: Seq<u8>) -> bool
    decreases a.len(),
{
    if a.len() == 0 {
        true
    } else if b.len() == 0 {
        false
    } else if a[0] != b[0] {
        a[0] < b[0]
    } else {
        bytes_le(a.skip(1), b.skip(1))
    }
}

/// The order of names: lexicographic over the UTF-8 encoding.
pub open spec fn name_le(a: Seq<char>, b: Seq<char>) -> bool {
    bytes_le(encode_utf8(a), encode_utf8(b))
}

/// A key's mathematical content: its pairs, in order.
pub type Pairs = Seq<(Seq<char>, Seq<char>)>;

/// Ascending by name; equal names may repeat.
pub open spec fn sorted_by_name(s: Pairs) -> bool {
    forall|i: int, j: int| 0 <= i < j < s.len() ==> name_le(#[trigger] s[i].0, #[trigger] s[j].0)
}

/// How many pairs of `s` carry a name that is `<=` the given one.
pub open spec fn rank(s: Pairs, name: Seq<char>) -> nat
    decreases s.len(),
{
    if s.len() == 0 {
        0
    } else {
        rank(s.drop_last(), name) + if name_le(s.last().0, name) {
            1nat
        } else {
            0nat
        }
    }
}

/// `s` with the pair placed behind every pair whose name is `<=` its own.
pub open spec fn with_pair(s: Pairs, name: Seq<char>, value: Seq<char>) -> Pairs {
    s.insert(rank(s, name) as int, (name, value))
}

/// Of any two byte strings one is `<=` the other.
pub proof fn lemma_bytes_le_total(a: Seq<u8>, b: Seq<u8>)
    ensures
        bytes_le(a, b) || bytes_le(b, a),
    decreases a.len(),
{
    if a.len() > 0 && b.len() > 0 && a[0] == b[0] {
        lemma_bytes_le_total(a.skip(1), b.skip(1));
    }
}

/// `<=` on byte strings is transitive.
pub proof fn lemma_bytes_le_transitive(a: Seq<u8>, b: Seq<u8>, c: Seq<u8>)
    requires
        bytes_le(a, b),
        bytes_le(b, c),
    ensures
        bytes_le(a, c),
    decreases a.len(),
{
    if a.len() > 0 && b.len() > 0 && c.len() > 0 && a[0] == b[0] && b[0] == c[0] {
        lemma_bytes_le_transitive(a.skip(1), b.skip(1), c.skip(1));
    }
}

/// Two byte strings that are each `<=` the other are one byte string.
pub proof fn lemma_bytes_le_antisymmetric(a: Seq<u8>, b: Seq<u8>)
    requires
        bytes_le(a, b),
        bytes_le(b, a),
    ensures
        a == b,
    decreases a.len(),
{
    if a.len() > 0 && b.len() > 0 {
        lemma_bytes_le_antisymmetric(a.skip(1), b.skip(1));
        assert(a =~= seq![a[0]] + a.skip(1));
        assert(b =~= seq![b[0]] + b.skip(1));
    } else {
        assert(a =~= b);
    }
}

/// Two names that are each `<=` the other are one name.
pub proof fn lemma_name_le_antisymmetric(a: Seq<char>, b: Seq<char>)
    requires
        name_le(a, b),
        name_le(b, a),
    ensures
        a == b,
{
    lemma_bytes_le_antisymmetric(encode_utf8(a), encode_utf8(b));
    encode_utf8_decode_utf8(a);
    encode_utf8_decode_utf8(b);
}

/// Of any two names one is `<=` the other.
pub proof fn lemma_name_le_total(a: Seq<char>, b: Seq<char>)
    ensures
        name_le(a, b) || name_le(b, a),
{
    lemma_bytes_le_total(encode_utf8(a), encode_utf8(b));
}

/// `<=` on names is transitive.
pub proof fn lemma_name_le_transitive(a: Seq<char>, b: Seq<char>, c: Seq<char>)
    requires
        name_le(a, b),
        name_le(b, c),
    ensures
        name_le(a, c),
{
    lemma_bytes_le_transitive(encode_utf8(a), encode_utf8(b), encode_utf8(c));
}

/// The order of pairs: by name, and by value where the names are equal.
pub open spec fn pair_le(a: (Seq<char>, Seq<char>), b: (Seq<char>, Seq<char>)) -> bool {
    if a.0 == b.0 {
        name_le(a.1, b.1)
    } else {
        name_le(a.0, b.0)
    }
}

/// The order of keys: pair by pair from the front; a key that is the front
/// of another comes first.
pub open spec fn key_le(a: Pairs, b: Pairs) -> bool
    decreases a.len(),
{
    if a.len() == 0 {
        true
    } else if b.len() == 0 {
        false
    } else if a[0] != b[0] {
        pair_le(a[0], b[0])
    } else {
        key_le(a.skip(1), b.skip(1))
    }
}

/// `<=` on pairs is transitive.
proof fn lemma_pair_le_transitive(
    a: (Seq<char>, Seq<char>),
    b: (Seq<char>, Seq<char>),
    c: (Seq<char>, Seq<char>),
)
    requires
        pair_le(a, b),
        pair_le(b, c),
    ensures
        pair_le(a, c),
{
    if a.0 == b.0 && b.0 == c.0 {
        lemma_name_le_transitive(a.1, b.1, c.1);
    } else if a.0 != b.0 && b.0 != c.0 {
        lemma_name_le_transitive(a.0, b.0, c.0);
        if a.0 == c.0 {
            lemma_name_le_antisymmetric(a.0, b.0);
        }
    }
}

/// Two pairs that are each `<=` the other are one pair.
proof fn lemma_pair_le_antisymmetric(a: (Seq<char>, Seq<char>), b: (Seq<char>, Seq<char>))
    requires
        pair_le(a, b),
        pair_le(b, a),
    ensures
        a == b,
{
    if a.0 == b.0 {
        lemma_name_le_antisymmetric(a.1, b.1);
    } else {
        lemma_name_le_antisymmetric(a.0, b.0);
    }
}

/// Every key is `<=` itself.
pub proof fn lemma_key_le_reflexive(a: Pairs)
    ensures
        key_le(a, a),
    decreases a.len(),
{
    if a.len() > 0 {
        lemma_key_le_reflexive(a.skip(1));
    }
}

/// Of any two keys one is `<=` the other.
pub proof fn lemma_key_le_total(a: Pairs, b: Pairs)
    ensures
        key_le(a, b) || key_le(b, a),
    decreases a.len(),
{
    if a.len() > 0 && b.len() > 0 {
        if a[0] == b[0] {
            lemma_key_le_total(a.skip(1), b.skip(1));
        } else if a[0].0 == b[0].0 {
            lemma_name_le_total(a[0].1, b[0].1);
        } else {
            lemma_name_le_total(a[0].0, b[0].0);
        }
    }
}

/// `<=` on keys is transitive.
pub proof fn lemma_key_le_transitive(a: Pairs, b: Pairs, c: Pairs)
    requires
        key_le(a, b),
        key_le(b, c),
    ensures
        key_le(a, c),
    decreases a.len(),
{
    if a.len() > 0 && b.len() > 0 && c.len() > 0 {
        if a[0] == b[0] && b[0] == c[0] {
            lemma_key_le_transitive(a.skip(1), b.skip(1), c.skip(1));
        } else if a[0] != b[0] && b[0] != c[0] {
            lemma_pair_le_transitive(a[0], b[0], c[0]);
            if a[0] == c[0] {
                lemma_pair_le_antisymmetric(a[0], b[0]);
            }
        }
    }
}

/// Two keys that are each `<=` the other are one key.
pub proof fn lemma_key_le_antisymmetric(a: Pairs, b: Pairs)
    requires
        key_le(a, b),
        key_le(b, a),
    ensures
        a == b,
    decreases a.len(),
{
    if a.len() > 0 && b.len() > 0 {
        if a[0] != b[0] {
            lemma_pair_le_antisymmetric(a[0], b[0]);
        }
        lemma_key_le_antisymmetric(a.skip(1), b.skip(1));
        assert(a =~= seq![a[0]] + a.skip(1));
        assert(b =~= seq![b[0]] + b.skip(1));
    } else {
        assert(a =~= b);
    }
}

/// Compares two strings as `name_le` does.
pub fn str_le(a: &str, b: &str) -> (r: bool)
    ensures
        r == name_le(a@, b@),
{
    let x = a.as_bytes();
    let y = b.as_bytes();
    let mut i: usize = 0;
    assert(x@.skip(0) =~= x@ && y@.skip(0) =~= y@);
    while i < x.len() && i < y.len()
        invariant
            i <= x@.len(),
            i <= y@.len(),
            x@ == encode_utf8(a@),
            y@ == encode_utf8(b@),
            bytes_le(x@, y@) == bytes_le(x@.skip(i as int), y@.skip(i as int)),
        decreases x@.len() - i,
    {
        if x[i] != y[i] {
            return x[i] < y[i];
        }
        assert(x@.skip(i as int).skip(1) =~= x@.skip(i + 1));
        assert(y@.skip(i as int).skip(1) =~= y@.skip(i + 1));
        i += 1;
    }
    x.len() <= y.len()
}

/// The pairs of a vector of owned strings, each string taken by its content.
pub open spec fn pairs_of(v: Seq<(String, String)>) -> Pairs {
    v.map_values(|p: (String, String)| (p.0@, p.1@))
}

/// Ascending by name, and no name twice.
pub open spec fn strictly_sorted_by_name(s: Pairs) -> bool {
    forall|i: int, j: int|
        0 <= i < j < s.len() ==> name_le(#[trigger] s[i].0, #[trigger] s[j].0) && s[i].0 != s[j].0
}

/// The pairs that a tag map holds, each string taken by its content.
pub open spec fn tag_pairs(tags: Map<String, String>) -> Set<(Seq<char>, Seq<char>)> {
    Set::new(
        |p: (Seq<char>, Seq<char>)|
            exists|k: String| #[trigger] tags.contains_key(k) && p == (k@, tags[k]@),
    )
}

/// The key of a tag map: its pairs in ascending order of name. A map holds
/// no name twice, so there is one such list.
pub open spec fn key_of(tags: Map<String, String>) -> Pairs {
    choose|s: Pairs| strictly_sorted_by_name(s) && s.to_set() == tag_pairs(tags)
}

/// In a sorted list the pairs that are `<=` a name form a prefix, and `rank`
/// is its length.
pub proof fn lemma_rank_is_prefix_length(s: Pairs, name: Seq<char>, i: int)
    requires
        0 <= i <= s.len(),
        forall|j: int| 0 <= j < i ==> name_le(#[trigger] s[j].0, name),
        forall|j: int| i <= j < s.len() ==> !name_le(#[trigger] s[j].0, name),
    ensures
        rank(s, name) == i,
    decreases s.len(),
{
    if s.len() > 0 {
        let t = s.drop_last();
        if i == s.len() {
            lemma_rank_is_prefix_length(t, name, i - 1);
        } else {
            lemma_rank_is_prefix_length(t, name, i);
        }
    }
}

/// In a sorted list, the pairs in front of `rank` are `<=` the name and the
/// pairs from `rank` on are not.
pub proof fn lemma_rank_splits(s: Pairs, name: Seq<char>)
    requires
        sorted_by_name(s),
    ensures
        rank(s, name) <= s.len(),
        forall|j: int| 0 <= j < rank(s, name) ==> name_le(#[trigger] s[j].0, name),
        forall|j: int| rank(s, name) <= j < s.len() ==> !name_le(#[trigger] s[j].0, name),
    decreases s.len(),
{
    if s.len() > 0 {
        let t = s.drop_last();
        assert forall|i: int, j: int| 0 <= i < j < t.len() implies name_le(
            #[trigger] t[i].0,
            #[trigger] t[j].0,
        ) by {
            assert(t[i] == s[i] && t[j] == s[j]);
        }
        lemma_rank_splits(t, name);
        let r = rank(t, name) as int;
        assert forall|j: int| 0 <= j < t.len() implies t[j] == s[j] by {}
        if name_le(s.last().0, name) {
            assert forall|j: int| 0 <= j < t.len() implies name_le(#[trigger] s[j].0, name) by {
                assert(name_le(s[j].0, s[s.len() - 1].0));
                lemma_bytes_le_transitive(
                    encode_utf8(s[j].0),
                    encode_utf8(s.last().0),
                    encode_utf8(name),
                );
            }
            if r < t.len() {
                assert(!name_le(t[r].0, name));
                assert(false);
            }
        }
    }
}

/// Placing a pair by `with_pair` keeps a sorted list sorted.
pub proof fn lemma_with_pair_sorted(s: Pairs, name: Seq<char>, value: Seq<char>)
    requires
        sorted_by_name(s),
    ensures
        sorted_by_name(with_pair(s, name, value)),
{
    lemma_rank_splits(s, name);
    let r = rank(s, name) as int;
    let t = with_pair(s, name, value);
    assert forall|i: int, j: int| 0 <= i < j < t.len() implies name_le(
        #[trigger] t[i].0,
        #[trigger] t[j].0,
    ) by {
        if j == r {
            assert(t[i] == s[i]);
        } else if i == r {
            assert(t[j] == s[j - 1]);
            lemma_bytes_le_total(encode_utf8(s[j - 1].0), encode_utf8(name));
        } else if j < r {
            assert(t[i] == s[i] && t[j] == s[j]);
        } else if i < r {
            assert(t[i] == s[i] && t[j] == s[j - 1]);
        } else {
            assert(t[i] == s[i - 1] && t[j] == s[j - 1]);
        }
    }
}

/// Placing a pair adds it to the set of pairs and changes nothing else.
pub proof fn lemma_with_pair_set(s: Pairs, name: Seq<char>, value: Seq<char>)
    requires
        rank(s, name) <= s.len(),
    ensures
        with_pair(s, name, value).to_set() == s.to_set().insert((name, value)),
{
    let r = rank(s, name) as int;
    let t = with_pair(s, name, value);
    assert forall|p: (Seq<char>, Seq<char>)| t.to_set().contains(p) implies s.to_set().insert(
        (name, value),
    ).contains(p) by {
        let k = choose|k: int| 0 <= k < t.len() && t[k] == p;
        if k < r {
            assert(s[k] == p);
        } else if k > r {
            assert(s[k - 1] == p);
        }
    }
    assert forall|p: (Seq<char>, Seq<char>)|
        s.to_set().insert((name, value)).contains(p) implies t.to_set().contains(p) by {
        if p == (name, value) {
            assert(t[r] == p);
        } else {
            let k = choose|k: int| 0 <= k < s.len() && s[k] == p;
            if k < r {
                assert(t[k] == p);
            } else {
                assert(t[k + 1] == p);
            }
        }
    }
    assert(t.to_set() =~= s.to_set().insert((name, value)));
}

/// Two keys that hold the same pairs, each name once, are the same key.
pub proof fn lemma_canonical_unique(a: Pairs, b: Pairs)
    requires
        strictly_sorted_by_name(a),
        strictly_sorted_by_name(b),
        a.to_set() == b.to_set(),
    ensures
        a == b,
    decreases a.len(),
{
    if a.len() == 0 {
        if b.len() > 0 {
            assert(b.to_set().contains(b[0]));
            assert(a.contains(b[0]));
        }
        assert(a =~= b);
    } else {
        assert(a.to_set().contains(a[0]));
        assert(b.contains(a[0]));
        let j = choose|j: int| 0 <= j < b.len() && b[j] == a[0];
        assert(b.to_set().contains(b[0]));
        assert(a.contains(b[0]));
        let i = choose|i: int| 0 <= i < a.len() && a[i] == b[0];
        if i > 0 {
            assert(name_le(a[0].0, a[i].0));
            if j > 0 {
                assert(name_le(b[0].0, b[j].0));
            }
            lemma_name_le_antisymmetric(a[0].0, a[i].0);
        }
        assert(a[0] == b[0]);
        let a1 = a.skip(1);
        let b1 = b.skip(1);
        assert forall|p: (Seq<char>, Seq<char>)| a1.to_set().contains(p) implies b1.to_set().contains(
            p,
        ) by {
            let k = choose|k: int| 0 <= k < a1.len() && a1[k] == p;
            assert(a[k + 1] == p);
            assert(a.to_set().contains(p));
            assert(b.contains(p));
            let m = choose|m: int| 0 <= m < b.len() && b[m] == p;
            if m == 0 {
                assert(a[0].0 != a[k + 1].0);
            }
            assert(b1[m - 1] == p);
        }
        assert forall|p: (Seq<char>, Seq<char>)| b1.to_set().contains(p) implies a1.to_set().contains(
            p,
        ) by {
            let k = choose|k: int| 0 <= k < b1.len() && b1[k] == p;
            assert(b[k + 1] == p);
            assert(b.to_set().contains(p));
            assert(a.contains(p));
            let m = choose|m: int| 0 <= m < a.len() && a[m] == p;
            if m == 0 {
                assert(b[0].0 != b[k + 1].0);
            }
            assert(a1[m - 1] == p);
        }
        assert(a1.to_set() =~= b1.to_set());
        assert forall|x: int, y: int| 0 <= x < y < a1.len() implies name_le(
            #[trigger] a1[x].0,
            #[trigger] a1[y].0,
        ) && a1[x].0 != a1[y].0 by {
            assert(a1[x] == a[x + 1] && a1[y] == a[y + 1]);
        }
        assert forall|x: int, y: int| 0 <= x < y < b1.len() implies name_le(
            #[trigger] b1[x].0,
            #[trigger] b1[y].0,
        ) && b1[x].0 != b1[y].0 by {
            assert(b1[x] == b[x + 1] && b1[y] == b[y + 1]);
        }
        lemma_canonical_unique(a1, b1);
        assert(a =~= seq![a[0]] + a1);
        assert(b =~= seq![b[0]] + b1);
    }
}

/// `lemma_with_pair_commutes` where the first name is the lower one.
proof fn lemma_with_pair_commutes_ordered(
    s: Pairs,
    n1: Seq<char>,
    v1: Seq<char>,
    n2: Seq<char>,
    v2: Seq<char>,
)
    requires
        sorted_by_name(s),
        name_le(n1, n2),
        n1 != n2,
    ensures
        with_pair(with_pair(s, n1, v1), n2, v2) == with_pair(with_pair(s, n2, v2), n1, v1),
{
    lemma_rank_splits(s, n1);
    lemma_rank_splits(s, n2);
    let r1 = rank(s, n1) as int;
    let r2 = rank(s, n2) as int;
    if name_le(n2, n1) {
        lemma_name_le_antisymmetric(n1, n2);
    }
    if r1 > r2 {
        assert(name_le(s[r2].0, n1));
        lemma_bytes_le_transitive(encode_utf8(s[r2].0), encode_utf8(n1), encode_utf8(n2));
    }
    let s1 = with_pair(s, n1, v1);
    let s2 = with_pair(s, n2, v2);
    assert forall|j: int| 0 <= j < r2 + 1 implies name_le(#[trigger] s1[j].0, n2) by {
        if j < r1 {
            assert(s1[j] == s[j]);
        } else if j > r1 {
            assert(s1[j] == s[j - 1]);
        }
    }
    assert forall|j: int| r2 + 1 <= j < s1.len() implies !name_le(#[trigger] s1[j].0, n2) by {
        assert(s1[j] == s[j - 1]);
    }
    lemma_rank_is_prefix_length(s1, n2, r2 + 1);
    assert forall|j: int| 0 <= j < r1 implies name_le(#[trigger] s2[j].0, n1) by {
        assert(s2[j] == s[j]);
    }
    assert forall|j: int| r1 <= j < s2.len() implies !name_le(#[trigger] s2[j].0, n1) by {
        if j < r2 {
            assert(s2[j] == s[j]);
        } else if j > r2 {
            assert(s2[j] == s[j - 1]);
        }
    }
    lemma_rank_is_prefix_length(s2, n1, r1);
    assert(with_pair(s1, n2, v2) =~= with_pair(s2, n1, v1));
}

/// Two pairs with different names may be placed in either order: the key
/// that results is the same.
pub proof fn lemma_with_pair_commutes(
    s: Pairs,
    n1: Seq<char>,
    v1: Seq<char>,
    n2: Seq<char>,
    v2: Seq<char>,
)
    requires
        sorted_by_name(s),
        n1 != n2,
    ensures
        with_pair(with_pair(s, n1, v1), n2, v2) == with_pair(with_pair(s, n2, v2), n1, v1),
{
    lemma_bytes_le_total(encode_utf8(n1), encode_utf8(n2));
    if name_le(n1, n2) {
        lemma_with_pair_commutes_ordered(s, n1, v1, n2, v2);
    } else {
        lemma_with_pair_commutes_ordered(s, n2, v2, n1, v1);
    }
}

/// The pairs of a vector of borrowed strings, each string taken by its
/// content.
pub open spec fn pairs_of_borrowed(v: Seq<(&String, &String)>) -> Pairs {
    v.map_values(|p: (&String, &String)| (p.0@, p.1@))
}

/// `HashMap::iter`, collected: the map hands out every entry once, in an
/// order of its own choosing, and holds no key twice.
#[verifier::external_body]
fn tag_entries<'a>(tags: &'a HashMap<String, String>) -> (r: Vec<(&'a String, &'a String)>)
    ensures
        pairs_of_borrowed(r@).to_set() == tag_pairs(tags@),
        forall|i: int, j: int| 0 <= i < j < r@.len() ==> r@[i].0@ != r@[j].0@,
{
    tags.iter().collect()
}

/// A canonical tag key: `(name, value)` pairs in ascending order of name.
#[derive(Debug, PartialEq, Eq, Hash)]
pub struct DimensionKey {
    dimensions: Vec<(String, String)>,
}

impl View for DimensionKey {
    type V = Pairs;

    closed spec fn view(&self) -> Pairs {
        pairs_of(self.dimensions@)
    }
}

impl Clone for DimensionKey {
    /// A key with the same pairs.
    fn clone(&self) -> (r: Self)
        ensures
            r@ == self@,
    {
        proof {
            use_type_invariant(self);
        }
        let mut dims: Vec<(String, String)> = Vec::new();
        let mut i: usize = 0;
        while i < self.dimensions.len()
            invariant
                i <= self.dimensions@.len(),
                dims@ == self.dimensions@.take(i as int),
            decreases self.dimensions@.len() - i,
        {
            let pair = (self.dimensions[i].0.clone(), self.dimensions[i].1.clone());
            dims.push(pair);
            assert(dims@ =~= self.dimensions@.take(i + 1));
            i += 1;
        }
        assert(dims@ =~= self.dimensions@);
        DimensionKey { dimensions: dims }
    }
}

/// Places one pair in a sorted vector, behind every pair whose name is `<=`
/// its own.
fn place_pair(dims: &mut Vec<(String, String)>, key: &str, value: &str)
    requires
        sorted_by_name(pairs_of(old(dims)@)),
    ensures
        pairs_of(final(dims)@) == with_pair(pairs_of(old(dims)@), key@, value@),
        sorted_by_name(pairs_of(final(dims)@)),
{
    let ghost before = pairs_of(dims@);
    let mut i: usize = 0;
    while i < dims.len() && str_le(dims[i].0.as_str(), key)
        invariant
            i <= dims@.len(),
            pairs_of(dims@) == before,
            forall|j: int| 0 <= j < i ==> name_le(#[trigger] before[j].0, key@),
        decreases dims@.len() - i,
    {
        i += 1;
    }
    proof {
        assert forall|j: int| i <= j < before.len() implies !name_le(
            #[trigger] before[j].0,
            key@,
        ) by {
            assert(!name_le(before[i as int].0, key@));
            if j > i && name_le(before[j].0, key@) {
                assert(name_le(before[i as int].0, before[j].0));
                lemma_bytes_le_transitive(
                    encode_utf8(before[i as int].0),
                    encode_utf8(before[j].0),
                    encode_utf8(key@),
                );
            }
        }
        lemma_rank_is_prefix_length(before, key@, i as int);
        lemma_with_pair_sorted(before, key@, value@);
    }
    dims.insert(i, (key.to_owned(), value.to_owned()));
    assert(pairs_of(dims@) =~= with_pair(before, key@, value@));
}

impl DimensionKey {
    /// The pairs are in ascending order of name.
    #[verifier::type_invariant]
    spec fn canonical(self) -> bool {
        sorted_by_name(pairs_of(self.dimensions@))
    }

    /// The empty key, which stands for the ungrouped stream.
    pub fn new() -> (r: Self)
        ensures
            r@ == Seq::<(Seq<char>, Seq<char>)>::empty(),
    {
        let r = DimensionKey { dimensions: Vec::new() };
        assert(r@ =~= Seq::<(Seq<char>, Seq<char>)>::empty());
        r
    }

    /// The key with one more pair, placed behind every pair whose name is
    /// `<=` the new name.
    pub fn with_dimension(self, key: &str, value: &str) -> (r: Self)
        ensures
            r@ == with_pair(self@, key@, value@),
            sorted_by_name(r@),
    {
        proof {
            use_type_invariant(&self);
        }
        let mut dims = self.dimensions;
        place_pair(&mut dims, key, value);
        DimensionKey { dimensions: dims }
    }

    /// The key of a tag map: its pairs in ascending order of name. The
    /// order in which the map hands out its entries leaves no trace.
    pub fn from_tags(tags: &HashMap<String, String>) -> (r: Self)
        ensures
            strictly_sorted_by_name(r@),
            r@.to_set() == tag_pairs(tags@),
            r@ == key_of(tags@),
    {
        let entries = tag_entries(tags);
        let ghost all = pairs_of_borrowed(entries@);
        let mut dims: Vec<(String, String)> = Vec::new();
        let mut i: usize = 0;
        assert(pairs_of(dims@).to_set() =~= all.take(0).to_set());
        while i < entries.len()
            invariant
                i <= entries@.len(),
                all == pairs_of_borrowed(entries@),
                sorted_by_name(pairs_of(dims@)),
                pairs_of(dims@).to_set() == all.take(i as int).to_set(),
                forall|a: int, b: int|
                    0 <= a < b < dims@.len() ==> (#[trigger] pairs_of(dims@)[a]).0
                        != (#[trigger] pairs_of(dims@)[b]).0,
                forall|a: int, b: int| 0 <= a < b < entries@.len() ==> entries@[a].0@ != entries@[b].0@,
            decreases entries@.len() - i,
        {
            let ghost before = pairs_of(dims@);
            let ghost name = entries@[i as int].0@;
            let ghost value = entries@[i as int].1@;
            proof {
                lemma_rank_splits(before, name);
                lemma_with_pair_set(before, name, value);
                assert(all[i as int] == (name, value));
                assert forall|a: int| 0 <= a < before.len() implies (#[trigger] before[a]).0
                    != name by {
                    assert(before.to_set().contains(before[a]));
                    assert(all.take(i as int).contains(before[a]));
                    let j = choose|j: int|
                        0 <= j < all.take(i as int).len() && all.take(i as int)[j] == before[a];
                    assert(all[j] == (entries@[j].0@, entries@[j].1@));
                }
                let grown = all.take(i as int).push((name, value));
                assert(all.take(i + 1) =~= grown);
                assert forall|p: (Seq<char>, Seq<char>)|
                    grown.to_set().contains(p) <==> all.take(i as int).to_set().insert(
                        (name, value),
                    ).contains(p) by {
                    if grown.to_set().contains(p) {
                        let k = choose|k: int| 0 <= k < grown.len() && grown[k] == p;
                        if k < i {
                            assert(all.take(i as int)[k] == p);
                        }
                    }
                    if all.take(i as int).to_set().contains(p) {
                        let k = choose|k: int|
                            0 <= k < all.take(i as int).len() && all.take(i as int)[k] == p;
                        assert(grown[k] == p);
                    }
                    if p == (name, value) {
                        assert(grown[i as int] == p);
                    }
                }
                assert(grown.to_set() =~= all.take(i as int).to_set().insert((name, value)));
            }
            place_pair(&mut dims, entries[i].0.as_str(), entries[i].1.as_str());
            proof {
                let after = pairs_of(dims@);
                let r = rank(before, name) as int;
                assert forall|a: int, b: int| 0 <= a < b < after.len() implies (#[trigger] after[a]).0
                    != (#[trigger] after[b]).0 by {
                    if a < r {
                        assert(after[a] == before[a]);
                    } else if a > r {
                        assert(after[a] == before[a - 1]);
                    }
                    if b < r {
                        assert(after[b] == before[b]);
                    } else if b > r {
                        assert(after[b] == before[b - 1]);
                    }
                }
            }
            i += 1;
        }
        assert(all.take(i as int) =~= all);
        let r = DimensionKey { dimensions: dims };
        proof {
            lemma_canonical_unique(r@, key_of(tags@));
        }
        r
    }

    /// Whether this key comes before the other in the order of keys, or
    /// is the same key.
    pub fn precedes(&self, other: &DimensionKey) -> (r: bool)
        ensures
            r == key_le(self@, other@),
    {
        let a = &self.dimensions;
        let b = &other.dimensions;
        let mut i: usize = 0;
        assert(self@.skip(0) =~= self@ && other@.skip(0) =~= other@);
        while i < a.len() && i < b.len()
            invariant
                i <= a@.len(),
                i <= b@.len(),
                self@ == pairs_of(a@),
                other@ == pairs_of(b@),
                key_le(self@, other@) == key_le(self@.skip(i as int), other@.skip(i as int)),
            decreases a@.len() - i,
        {
            let ghost x = self@.skip(i as int);
            let ghost y = other@.skip(i as int);
            assert(x[0] == (a@[i as int].0@, a@[i as int].1@));
            assert(y[0] == (b@[i as int].0@, b@[i as int].1@));
            if a[i].0 != b[i].0 {
                return str_le(a[i].0.as_str(), b[i].0.as_str());
            }
            if a[i].1 != b[i].1 {
                return str_le(a[i].1.as_str(), b[i].1.as_str());
            }
            assert(x.skip(1) =~= self@.skip(i + 1));
            assert(y.skip(1) =~= other@.skip(i + 1));
            i += 1;
        }
        a.len() <= b.len()
    }

    /// The pairs, in order.
    pub fn dimensions(&self) -> (r: &Vec<(String, String)>)
        ensures
            pairs_of(r@) == self@,
            sorted_by_name(self@),
    {
        proof {
            use_type_invariant(self);
        }
        &self.dimensions
    }

    /// The number of pairs.
    pub fn len(&self) -> (r: usize)
        ensures
            r == self@.len(),
    {
        self.dimensions.len()
    }
}

impl Default for DimensionKey {
    /// The empty key.
    fn default() -> (r: Self)
        ensures
            r@ == Seq::<(Seq<char>, Seq<char>)>::empty(),
    {
        DimensionKey::new()
    }
}

} // verus!
