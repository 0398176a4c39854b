//! The order in which a directory keeps and lists its names: lexicographic by
//! character, a proper prefix before its extensions. This is the order of the
//! names as strings.

use vstd::prelude::*;
use vstd::std_specs::iter::IteratorSpec;

verus! {

/// `a` precedes `b`, both read from position `i` on, where they agree before `i`.
pub open spec fn precedes_from(a: Seq<char>, b: Seq<char>, i: int) -> bool
    decreases a.len() - i,
{
    if i < 0 || i >= b.len() {
        false
    } else if i >= a.len() {
        true
    } else if a[i] == b[i] {
        precedes_from(a, b, i + 1)
    } else {
        (a[i] as u32) < (b[i] as u32)
    }
}

/// `a` comes strictly before `b` in a listing.
pub open spec fn name_lt(a: Seq<char>, b: Seq<char>) -> bool {
    precedes_from(a, b, 0)
}

/// The names are in strictly ascending order, so none occurs twice.
pub open spec fn strictly_sorted(names: Seq<Seq<char>>) -> bool {
    forall|i: int, j: int| 0 <= i < j < names.len() ==> name_lt(#[trigger] names[i], #[trigger] names[j])
}

/// How many of `names` come strictly before `name`: the place of `name` in a
/// sorted listing.
pub open spec fn rank(names: Seq<Seq<char>>, name: Seq<char>) -> nat
    decreases names.len(),
{
    if names.len() == 0 {
        0
    } else {
        rank(names.drop_last(), name) + if name_lt(names.last(), name) {
            1nat
        } else {
            0nat
        }
    }
}

/// How two names stand to each other.
#[derive(Clone, Copy, Debug, PartialEq, Eq, Structural)]
pub enum NameOrder {
    /// The first comes before the second.
    Before,
    /// They are the same name.
    Same,
    /// The first comes after the second.
    After,
}

/// From no position on does a name precede itself.
proof fn lemma_precedes_irreflexive(a: Seq<char>, i: int)
    requires
        0 <= i,
    ensures
        !precedes_from(a, a, i),
    decreases a.len() - i,
{
    if i < a.len() {
        lemma_precedes_irreflexive(a, i + 1);
    }
}

/// From no position on do two names precede each other.
proof fn lemma_precedes_asymmetric(a: Seq<char>, b: Seq<char>, i: int)
    requires
        0 <= i,
    ensures
        !(precedes_from(a, b, i) && precedes_from(b, a, i)),
    decreases a.len() - i,
{
    if i < a.len() && i < b.len() && a[i] == b[i] {
        lemma_precedes_asymmetric(a, b, i + 1);
    }
}

/// Two names that agree before `i` are equal, or one precedes the other from
/// `i` on.
proof fn lemma_precedes_total(a: Seq<char>, b: Seq<char>, i: int)
    requires
        0 <= i <= a.len(),
        i <= b.len(),
        a.take(i) == b.take(i),
    ensures
        precedes_from(a, b, i) || precedes_from(b, a, i) || a == b,
    decreases a.len() - i,
{
    if i < a.len() && i < b.len() {
        if a[i] == b[i] {
            assert(a.take(i + 1) == b.take(i + 1)) by {
                assert(a.take(i + 1) =~= a.take(i).push(a[i]));
                assert(b.take(i + 1) =~= b.take(i).push(b[i]));
            }
            lemma_precedes_total(a, b, i + 1);
        } else {
            assert(a[i] as u32 != b[i] as u32) by {
                vstd::utf8::char_u32_cast(a[i], a[i] as u32);
                vstd::utf8::char_u32_cast(b[i], b[i] as u32);
            }
        }
    } else if i == a.len() && i == b.len() {
        assert(a.take(i) =~= a);
        assert(b.take(i) =~= b);
    }
}

/// Preceding from `i` on is transitive.
proof fn lemma_precedes_transitive(a: Seq<char>, b: Seq<char>, c: Seq<char>, i: int)
    requires
        0 <= i,
        precedes_from(a, b, i),
        precedes_from(b, c, i),
    ensures
        precedes_from(a, c, i),
    decreases a.len() - i,
{
    if i < a.len() && i < b.len() && i < c.len() && a[i] == b[i] && b[i] == c[i] {
        lemma_precedes_transitive(a, b, c, i + 1);
    }
}

/// No name comes before itself.
pub proof fn lemma_name_lt_irreflexive(a: Seq<char>)
    ensures
        !name_lt(a, a),
{
    lemma_precedes_irreflexive(a, 0);
}

/// Of two names at most one comes before the other.
pub proof fn lemma_name_lt_asymmetric(a: Seq<char>, b: Seq<char>)
    ensures
        !(name_lt(a, b) && name_lt(b, a)),
{
    lemma_precedes_asymmetric(a, b, 0);
}

/// Two different names are ordered one way or the other.
pub proof fn lemma_name_lt_total(a: Seq<char>, b: Seq<char>)
    ensures
        name_lt(a, b) || name_lt(b, a) || a == b,
{
    assert(a.take(0) =~= b.take(0));
    lemma_precedes_total(a, b, 0);
}

/// The order is transitive.
pub proof fn lemma_name_lt_transitive(a: Seq<char>, b: Seq<char>, c: Seq<char>)
    requires
        name_lt(a, b),
        name_lt(b, c),
    ensures
        name_lt(a, c),
{
    lemma_precedes_transitive(a, b, c, 0);
}

/// In a sorted listing, exactly the names before position `rank` precede `name`.
pub proof fn lemma_rank_sorted(names: Seq<Seq<char>>, name: Seq<char>)
    requires
        strictly_sorted(names),
    ensures
        rank(names, name) <= names.len(),
        forall|i: int|
            0 <= i < names.len() ==> (name_lt(#[trigger] names[i], name) <==> i < rank(
                names,
                name,
            )),
    decreases names.len(),
{
    if names.len() > 0 {
        let front = names.drop_last();
        let last = names.last();
        assert forall|i: int, j: int| 0 <= i < j < front.len() implies name_lt(
            #[trigger] front[i],
            #[trigger] front[j],
        ) by {
            assert(front[i] == names[i] && front[j] == names[j]);
        }
        lemma_rank_sorted(front, name);
        if name_lt(last, name) {
            assert forall|i: int| 0 <= i < front.len() implies name_lt(
                #[trigger] front[i],
                name,
            ) by {
                assert(front[i] == names[i]);
                assert(name_lt(names[i], names[names.len() - 1]));
                lemma_name_lt_transitive(front[i], last, name);
            }
            if front.len() > 0 {
                assert(name_lt(front[front.len() - 1], name));
            }
        }
        assert forall|i: int| 0 <= i < names.len() implies (name_lt(#[trigger] names[i], name)
            <==> i < rank(names, name)) by {
            if i < front.len() {
                assert(front[i] == names[i]);
            }
        }
    }
}

/// A sorted listing holds no name twice.
pub proof fn lemma_sorted_unique(names: Seq<Seq<char>>, i: int, j: int)
    requires
        strictly_sorted(names),
        0 <= i < names.len(),
        0 <= j < names.len(),
        names[i] == names[j],
    ensures
        i == j,
{
    lemma_name_lt_irreflexive(names[i]);
}

/// A sorted listing has no duplicates.
pub proof fn lemma_sorted_no_duplicates(names: Seq<Seq<char>>)
    requires
        strictly_sorted(names),
    ensures
        names.no_duplicates(),
{
    assert forall|i: int, j: int| 0 <= i < names.len() && 0 <= j < names.len() && i != j implies names[i]
        != names[j] by {
        if names[i] == names[j] {
            lemma_sorted_unique(names, i, j);
        }
    }
}

/// A new name entered at its rank leaves the listing sorted.
pub proof fn lemma_insert_sorted(names: Seq<Seq<char>>, name: Seq<char>)
    requires
        strictly_sorted(names),
        !names.contains(name),
    ensures
        rank(names, name) <= names.len(),
        strictly_sorted(names.insert(rank(names, name) as int, name)),
{
    lemma_rank_sorted(names, name);
    let at = rank(names, name) as int;
    let after = names.insert(at, name);
    assert forall|i: int, j: int| 0 <= i < j < after.len() implies name_lt(
        #[trigger] after[i],
        #[trigger] after[j],
    ) by {
        if j < at {
            assert(after[i] == names[i] && after[j] == names[j]);
        } else if j == at {
            assert(after[i] == names[i]);
        } else if i < at {
            assert(after[i] == names[i] && after[j] == names[j - 1]);
        } else if i == at {
            assert(after[j] == names[j - 1]);
            assert(names.contains(names[j - 1]));
            lemma_name_lt_total(names[j - 1], name);
        } else {
            assert(after[i] == names[i - 1] && after[j] == names[j - 1]);
        }
    }
}

/// A listing without one of its names is still sorted.
pub proof fn lemma_remove_sorted(names: Seq<Seq<char>>, at: int)
    requires
        strictly_sorted(names),
        0 <= at < names.len(),
    ensures
        strictly_sorted(names.remove(at)),
{
    let after = names.remove(at);
    assert forall|i: int, j: int| 0 <= i < j < after.len() implies name_lt(
        #[trigger] after[i],
        #[trigger] after[j],
    ) by {
        let oi = if i < at { i } else { i + 1 };
        let oj = if j < at { j } else { j + 1 };
        assert(after[i] == names[oi] && after[j] == names[oj]);
    }
}

/// Compares two names in listing order.
pub fn compare_names(a: &str, b: &str) -> (order: NameOrder)
    ensures
        order == NameOrder::Before <==> name_lt(a@, b@),
        order == NameOrder::Same <==> a@ == b@,
        order == NameOrder::After <==> name_lt(b@, a@),
{
    broadcast use vstd::string::group_string_axioms;

    let mut left = a.chars();
    let mut right = b.chars();
    let ghost mut i: int = 0;
    proof {
        lemma_name_lt_irreflexive(a@);
        lemma_name_lt_asymmetric(a@, b@);
    }
    loop
        invariant
            0 <= i <= a@.len(),
            i <= b@.len(),
            left.obeys_prophetic_iter_laws(),
            right.obeys_prophetic_iter_laws(),
            left.remaining() == a@.skip(i),
            right.remaining() == b@.skip(i),
            forall|k: int| 0 <= k < i ==> a@[k] == b@[k],
            name_lt(a@, b@) == precedes_from(a@, b@, i),
            name_lt(b@, a@) == precedes_from(b@, a@, i),
            !name_lt(a@, a@),
            !(name_lt(a@, b@) && name_lt(b@, a@)),
        decreases a@.len() - i,
    {
        let x = left.next();
        let y = right.next();
        proof {
            if i < a@.len() {
                assert(a@.skip(i).drop_first() =~= a@.skip(i + 1));
            }
            if i < b@.len() {
                assert(b@.skip(i).drop_first() =~= b@.skip(i + 1));
            }
        }
        match (x, y) {
            (None, None) => {
                assert(a@ =~= b@);
                return NameOrder::Same;
            },
            (None, Some(_)) => {
                return NameOrder::Before;
            },
            (Some(_), None) => {
                return NameOrder::After;
            },
            (Some(x), Some(y)) => {
                assert(x == a@[i] && y == b@[i]);
                if x != y {
                    proof {
                        vstd::utf8::char_u32_cast(x, x as u32);
                        vstd::utf8::char_u32_cast(y, y as u32);
                    }
                    if (x as u32) < (y as u32) {
                        return NameOrder::Before;
                    } else {
                        return NameOrder::After;
                    }
                }
            },
        }
        proof {
            i = i + 1;
        }
    }
}

} // verus!
