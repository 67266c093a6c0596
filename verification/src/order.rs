//! Stable ordering of tokens by the offset at which they start.
use crate::token::{Token, TokenView};
use vstd::prelude::*;

verus! {

/// Selects the items whose key is `k`.
pub open spec fn has_key<T>(key: spec_fn(T) -> int, k: int) -> spec_fn(T) -> bool {
    |x: T| key(x) == k
}

/// No item has a smaller key than one that stands earlier in the sequence.
pub open spec fn ordered_by<T>(items: Seq<T>, key: spec_fn(T) -> int) -> bool {
    forall|i: int, j: int|
        0 <= i <= j < items.len() ==> key(#[trigger] items[i]) <= key(#[trigger] items[j])
}

/// `sorted` holds the items of `items` in ascending order of their keys, and
/// items with the same key stand in the order they have in `items`.
pub open spec fn is_stable_ordering<T>(sorted: Seq<T>, items: Seq<T>, key: spec_fn(T) -> int) -> bool {
    &&& sorted.len() == items.len()
    &&& ordered_by(sorted, key)
    &&& forall|k: int| #[trigger]
        sorted.filter(has_key(key, k)) == items.filter(has_key(key, k))
}

/// The byte offset at which a token starts.
pub open spec fn token_start() -> spec_fn(Token) -> int {
    |t: Token| t.index.0 as int
}

/// The byte offset at which a token starts, read from its view.
pub open spec fn view_start() -> spec_fn(TokenView) -> int {
    |v: TokenView| v.index.0
}

/// A sequence without an element that `pred` selects filters to nothing.
pub proof fn lemma_filter_none<T>(s: Seq<T>, pred: spec_fn(T) -> bool)
    requires
        forall|i: int| 0 <= i < s.len() ==> !pred(#[trigger] s[i]),
    ensures
        s.filter(pred) == Seq::<T>::empty(),
    decreases s.len(),
{
    reveal(Seq::filter);
    if s.len() > 0 {
        lemma_filter_none(s.drop_last(), pred);
    }
}

/// What a filter lets through stands in the sequence that was filtered.
pub proof fn lemma_filter_member<T>(s: Seq<T>, pred: spec_fn(T) -> bool, i: int)
    requires
        0 <= i < s.filter(pred).len(),
    ensures
        s.contains(s.filter(pred)[i]),
    decreases s.len(),
{
    reveal(Seq::filter);
    if s.len() > 0 {
        let rest = s.drop_last().filter(pred);
        if i < rest.len() {
            lemma_filter_member(s.drop_last(), pred, i);
            let j = choose|j: int| 0 <= j < s.drop_last().len() && s.drop_last()[j] == rest[i];
            assert(s[j] == rest[i]);
        } else {
            assert(s[s.len() - 1] == s.filter(pred)[i]);
        }
    }
}

/// Every item of a stable ordering is an item of the sequence it orders.
pub proof fn lemma_ordering_member<T>(sorted: Seq<T>, items: Seq<T>, key: spec_fn(T) -> int, i: int)
    requires
        is_stable_ordering(sorted, items, key),
        0 <= i < sorted.len(),
    ensures
        items.contains(sorted[i]),
{
    let pred = has_key(key, key(sorted[i]));
    broadcast use Seq::lemma_filter_contains;
    assert(pred(sorted[i]));
    assert(sorted.filter(pred).contains(sorted[i]));
    assert(sorted.filter(pred) == items.filter(pred));
    let j = choose|j: int| 0 <= j < items.filter(pred).len() && items.filter(pred)[j] == sorted[i];
    lemma_filter_member(items, pred, j);
}

/// Two ordered sequences that agree, key by key, on the items with that key
/// and on their order are the same sequence.
pub proof fn lemma_same_groups_same_sequence<T>(a: Seq<T>, b: Seq<T>, key: spec_fn(T) -> int)
    requires
        a.len() == b.len(),
        ordered_by(a, key),
        ordered_by(b, key),
        forall|k: int| #[trigger] a.filter(has_key(key, k)) == b.filter(has_key(key, k)),
    ensures
        a == b,
    decreases a.len(),
{
    if a.len() == 0 {
        assert(a =~= b);
    } else {
        let ka = key(a.last());
        let kb = key(b.last());
        assert(ka <= kb) by {
            lemma_key_occurs(a, b, key, ka, a.len() - 1);
        }
        assert(kb <= ka) by {
            assert(b.filter(has_key(key, kb)) == a.filter(has_key(key, kb)));
            lemma_key_occurs(b, a, key, kb, b.len() - 1);
        }
        let front_a = a.drop_last();
        let front_b = b.drop_last();
        assert forall|k: int| #[trigger]
            front_a.filter(has_key(key, k)) == front_b.filter(has_key(key, k)) by {
            reveal(Seq::filter);
            let pred = has_key(key, k);
            assert(a.filter(pred) == b.filter(pred));
            if k == ka {
                let kept_a = front_a.filter(pred);
                let kept_b = front_b.filter(pred);
                assert(kept_a.push(a.last()) == kept_b.push(b.last()));
                assert(kept_a =~= kept_a.push(a.last()).drop_last());
                assert(kept_b =~= kept_b.push(b.last()).drop_last());
            }
        }
        assert(a.last() == b.last()) by {
            reveal(Seq::filter);
            let pred = has_key(key, ka);
            assert(a.filter(pred) == b.filter(pred));
            assert(front_a.filter(pred).push(a.last()).last() == a.last());
            assert(front_b.filter(pred).push(b.last()).last() == b.last());
        }
        assert(ordered_by(front_a, key)) by {
            assert forall|i: int, j: int| 0 <= i <= j < front_a.len() implies key(
                #[trigger] front_a[i],
            ) <= key(#[trigger] front_a[j]) by {
                assert(key(a[i]) <= key(a[j]));
            }
        }
        assert(ordered_by(front_b, key)) by {
            assert forall|i: int, j: int| 0 <= i <= j < front_b.len() implies key(
                #[trigger] front_b[i],
            ) <= key(#[trigger] front_b[j]) by {
                assert(key(b[i]) <= key(b[j]));
            }
        }
        lemma_same_groups_same_sequence(front_a, front_b, key);
        assert(a =~= front_a.push(a.last()));
        assert(b =~= front_b.push(b.last()));
    }
}

/// A key that occurs in `a` at position `i` occurs in every ordered sequence
/// with the same items of that key, and is no larger than its last key.
proof fn lemma_key_occurs<T>(a: Seq<T>, b: Seq<T>, key: spec_fn(T) -> int, k: int, i: int)
    requires
        0 <= i < a.len(),
        key(a[i]) == k,
        b.len() > 0,
        ordered_by(b, key),
        a.filter(has_key(key, k)) == b.filter(has_key(key, k)),
    ensures
        k <= key(b.last()),
{
    let pred = has_key(key, k);
    broadcast use Seq::lemma_filter_contains, Seq::lemma_filter_pred;
    assert(pred(a[i]));
    assert(a.filter(pred).contains(a[i]));
    let j = choose|j: int| 0 <= j < b.filter(pred).len() && b.filter(pred)[j] == a[i];
    lemma_filter_member(b, pred, j);
    let m = choose|m: int| 0 <= m < b.len() && b[m] == b.filter(pred)[j];
    assert(key(b[m]) <= key(b[b.len() - 1]));
}

/// A sequence has one stable ordering.
pub proof fn lemma_stable_ordering_unique<T>(
    first: Seq<T>,
    second: Seq<T>,
    items: Seq<T>,
    key: spec_fn(T) -> int,
)
    requires
        is_stable_ordering(first, items, key),
        is_stable_ordering(second, items, key),
    ensures
        first == second,
{
    assert forall|k: int| #[trigger]
        first.filter(has_key(key, k)) == second.filter(has_key(key, k)) by {
        assert(first.filter(has_key(key, k)) == items.filter(has_key(key, k)));
        assert(second.filter(has_key(key, k)) == items.filter(has_key(key, k)));
    }
    lemma_same_groups_same_sequence(first, second, key);
}

/// Filtering a sequence of one element.
pub proof fn lemma_filter_one<T>(t: T, pred: spec_fn(T) -> bool)
    ensures
        seq![t].filter(pred) == if pred(t) {
            seq![t]
        } else {
            Seq::<T>::empty()
        },
{
    reveal_with_fuel(Seq::filter, 2);
    assert(seq![t].drop_last() =~= Seq::<T>::empty());
    assert(Seq::<T>::empty().push(t) =~= seq![t]);
}

/// Putting `t` behind the last item whose key is no larger than its own
/// keeps a sequence ordered and keeps `t` behind the items that share its key.
proof fn lemma_insert_in_place<T>(
    sorted: Seq<T>,
    at: int,
    t: T,
    seen: Seq<T>,
    key: spec_fn(T) -> int,
)
    requires
        is_stable_ordering(sorted, seen, key),
        0 <= at <= sorted.len(),
        forall|m: int| at <= m < sorted.len() ==> key(#[trigger] sorted[m]) > key(t),
        at > 0 ==> key(sorted[at - 1]) <= key(t),
    ensures
        is_stable_ordering(sorted.insert(at, t), seen.push(t), key),
{
    let front = sorted.take(at);
    let back = sorted.skip(at);
    let placed = sorted.insert(at, t);
    assert(sorted =~= front + back);
    assert(placed =~= front + seq![t] + back);
    assert(seen.push(t) =~= seen + seq![t]);
    assert(ordered_by(placed, key)) by {
        assert forall|i: int, j: int| 0 <= i <= j < placed.len() implies key(#[trigger] placed[i])
            <= key(#[trigger] placed[j]) by {
            if at > 0 {
                assert(key(sorted[at - 1]) <= key(t));
            }
            if i < at && j < at {
                assert(placed[i] == sorted[i] && placed[j] == sorted[j]);
            } else if i < at && j == at {
                assert(placed[i] == sorted[i]);
                assert(key(sorted[i]) <= key(sorted[at - 1]));
            } else if i < at && j > at {
                assert(placed[i] == sorted[i] && placed[j] == sorted[j - 1]);
            } else if i == at && j > at {
                assert(placed[j] == sorted[j - 1]);
            } else if i > at {
                assert(placed[i] == sorted[i - 1] && placed[j] == sorted[j - 1]);
            }
        }
    }
    assert forall|k: int| #[trigger]
        placed.filter(has_key(key, k)) == seen.push(t).filter(has_key(key, k)) by {
        let pred = has_key(key, k);
        Seq::filter_distributes_over_add(front, back, pred);
        Seq::filter_distributes_over_add(front, seq![t], pred);
        Seq::filter_distributes_over_add(front + seq![t], back, pred);
        Seq::filter_distributes_over_add(seen, seq![t], pred);
        lemma_filter_one(t, pred);
        assert(sorted.filter(pred) == seen.filter(pred));
        if pred(t) {
            lemma_filter_none(back, pred);
        }
    }
}

/// Orders tokens by the offset at which they start. Tokens that start at
/// the same offset keep the order in which they were given.
pub fn sort_by_start(tokens: Vec<Token>) -> (sorted: Vec<Token>)
    ensures
        is_stable_ordering(sorted@, tokens@, token_start()),
{
    let mut sorted: Vec<Token> = Vec::new();
    let ghost input = tokens@;
    proof {
        assert(input.take(0) =~= Seq::<Token>::empty());
    }

    for token in it: tokens
        invariant
            it.seq() == input,
            is_stable_ordering(sorted@, input.take(it.index() as int), token_start()),
    {
        let mut at: usize = sorted.len();
        while at > 0 && sorted[at - 1].index.0 > token.index.0
            invariant
                at <= sorted.len(),
                forall|m: int| at <= m < sorted@.len() ==> (#[trigger] sorted@[m]).index.0
                    > token.index.0,
            decreases at,
        {
            at -= 1;
        }
        proof {
            lemma_insert_in_place(
                sorted@,
                at as int,
                token,
                input.take(it.index() as int),
                token_start(),
            );
            assert(input.take(it.index() as int).push(token) =~= input.take(it.index() + 1));
        }
        sorted.insert(at, token);
    }

    proof {
        assert(input.take(input.len() as int) =~= input);
    }
    sorted
}

} // verus!
