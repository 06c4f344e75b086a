use vstd::prelude::*;

verus! {

/// Keys never go down from left to right.
#[verifier::opaque]
pub open spec fn sorted(keys: Seq<i32>) -> bool {
    forall|a: int, b: int| 0 <= a < b < keys.len() ==> keys[a] <= keys[b]
}

/// How many of `keys` are at most `key`. In a sorted sequence this is the
/// place just behind the last key that does not exceed `key`.
pub open spec fn insertion_point(keys: Seq<i32>, key: i32) -> nat
    decreases keys.len(),
{
    if keys.len() == 0 {
        0
    } else {
        insertion_point(keys.drop_last(), key) + if keys.last() <= key {
            1nat
        } else {
            0nat
        }
    }
}

/// `keys` with `key` put in behind every key that does not exceed it.
pub open spec fn sorted_insert(keys: Seq<i32>, key: i32) -> Seq<i32> {
    keys.insert(insertion_point(keys, key) as int, key)
}

/// `point` parts `keys` into those at most `key` and those above it.
pub open spec fn splits_at(keys: Seq<i32>, key: i32, point: int) -> bool {
    &&& 0 <= point <= keys.len()
    &&& forall|k: int| 0 <= k < point ==> #[trigger] keys[k] <= key
    &&& forall|k: int| point <= k < keys.len() ==> #[trigger] keys[k] > key
}

pub proof fn lemma_point_bounded(keys: Seq<i32>, key: i32)
    ensures
        insertion_point(keys, key) <= keys.len(),
    decreases keys.len(),
{
    if keys.len() > 0 {
        lemma_point_bounded(keys.drop_last(), key);
    }
}

pub proof fn lemma_point_concat(front: Seq<i32>, back: Seq<i32>, key: i32)
    ensures
        insertion_point(front + back, key) == insertion_point(front, key) + insertion_point(
            back,
            key,
        ),
    decreases back.len(),
{
    if back.len() == 0 {
        assert(front + back =~= front);
    } else {
        assert((front + back).drop_last() =~= front + back.drop_last());
        assert((front + back).last() == back.last());
        lemma_point_concat(front, back.drop_last(), key);
    }
}

pub proof fn lemma_point_all(keys: Seq<i32>, key: i32)
    requires
        forall|k: int| 0 <= k < keys.len() ==> #[trigger] keys[k] <= key,
    ensures
        insertion_point(keys, key) == keys.len(),
    decreases keys.len(),
{
    if keys.len() > 0 {
        lemma_point_all(keys.drop_last(), key);
    }
}

pub proof fn lemma_point_none(keys: Seq<i32>, key: i32)
    requires
        forall|k: int| 0 <= k < keys.len() ==> #[trigger] keys[k] > key,
    ensures
        insertion_point(keys, key) == 0,
    decreases keys.len(),
{
    if keys.len() > 0 {
        lemma_point_none(keys.drop_last(), key);
    }
}

/// Any place that parts the keys around `key` is the insertion point.
pub proof fn lemma_point_is(keys: Seq<i32>, key: i32, point: int)
    requires
        splits_at(keys, key, point),
    ensures
        insertion_point(keys, key) == point,
{
    let front = keys.take(point);
    let back = keys.skip(point);
    assert(keys =~= front + back);
    assert forall|k: int| 0 <= k < front.len() implies #[trigger] front[k] <= key by {
        assert(front[k] == keys[k]);
    }
    assert forall|k: int| 0 <= k < back.len() implies #[trigger] back[k] > key by {
        assert(back[k] == keys[point + k]);
    }
    lemma_point_all(front, key);
    lemma_point_none(back, key);
    lemma_point_concat(front, back, key);
}

/// In a sorted sequence the insertion point parts the keys around `key`.
pub proof fn lemma_point_splits(keys: Seq<i32>, key: i32)
    requires
        sorted(keys),
    ensures
        splits_at(keys, key, insertion_point(keys, key) as int),
    decreases keys.len(),
{
    reveal(sorted);
    if keys.len() > 0 {
        let front = keys.drop_last();
        assert(sorted(front)) by {
            assert forall|a: int, b: int| 0 <= a < b < front.len() implies front[a] <= front[b] by {
                assert(front[a] == keys[a] && front[b] == keys[b]);
            }
        }
        lemma_point_splits(front, key);
        lemma_point_bounded(front, key);
        let point = insertion_point(front, key) as int;
        if keys.last() <= key {
            assert forall|k: int| 0 <= k < keys.len() implies #[trigger] keys[k] <= key by {
                assert(k < keys.len() - 1 ==> keys[k] <= keys[keys.len() - 1]);
            }
            lemma_point_all(keys, key);
        } else {
            assert forall|k: int| 0 <= k < point implies #[trigger] keys[k] <= key by {
                assert(keys[k] == front[k]);
            }
            assert forall|k: int| point <= k < keys.len() implies #[trigger] keys[k] > key by {
                if k < front.len() {
                    assert(keys[k] == front[k]);
                }
            }
        }
    }
}

/// Putting a key in at its insertion point keeps a sorted sequence sorted.
pub proof fn lemma_sorted_insert_sorted(keys: Seq<i32>, key: i32)
    requires
        sorted(keys),
    ensures
        sorted(sorted_insert(keys, key)),
{
    reveal(sorted);
    lemma_point_splits(keys, key);
    let point = insertion_point(keys, key) as int;
    let out = keys.insert(point, key);
    assert forall|a: int, b: int| 0 <= a < b < out.len() implies out[a] <= out[b] by {
        if a < point {
            assert(out[a] == keys[a]);
        } else if a > point {
            assert(out[a] == keys[a - 1]);
        }
        if b < point {
            assert(out[b] == keys[b]);
        } else if b > point {
            assert(out[b] == keys[b - 1]);
        }
    }
}

/// A piece of a sorted sequence is sorted.
pub proof fn lemma_sorted_subrange(keys: Seq<i32>, from: int, to: int)
    requires
        sorted(keys),
        0 <= from <= to <= keys.len(),
    ensures
        sorted(keys.subrange(from, to)),
{
    reveal(sorted);
    let piece = keys.subrange(from, to);
    assert forall|a: int, b: int| 0 <= a < b < piece.len() implies piece[a] <= piece[b] by {
        assert(piece[a] == keys[from + a] && piece[b] == keys[from + b]);
    }
}

/// Where the key in the middle is at most `key`, the insertion point lies
/// to its right.
pub proof fn lemma_point_right(left: Seq<i32>, mid: i32, right: Seq<i32>, key: i32)
    requires
        sorted(left.push(mid) + right),
        mid <= key,
    ensures
        insertion_point(left.push(mid) + right, key) == left.len() + 1 + insertion_point(
            right,
            key,
        ),
{
    let front = left.push(mid);
    let whole = front + right;
    lemma_point_concat(front, right, key);
    assert forall|k: int| 0 <= k < front.len() implies #[trigger] front[k] <= key by {
        lemma_sorted_at(whole, k, left.len() as int);
        assert(whole[k] == front[k]);
        assert(whole[left.len() as int] == mid);
    }
    lemma_point_all(front, key);
}

/// Where the key in the middle is above `key`, the insertion point lies to
/// its left.
pub proof fn lemma_point_left(left: Seq<i32>, mid: i32, right: Seq<i32>, key: i32)
    requires
        sorted(left.push(mid) + right),
        key < mid,
    ensures
        insertion_point(left.push(mid) + right, key) == insertion_point(left, key),
{
    let whole = left.push(mid) + right;
    let back = seq![mid] + right;
    assert(whole =~= left + back);
    lemma_point_concat(left, back, key);
    assert forall|k: int| 0 <= k < back.len() implies #[trigger] back[k] > key by {
        lemma_sorted_at(whole, left.len() as int, left.len() + k);
        assert(whole[left.len() + k] == back[k]);
        assert(whole[left.len() as int] == mid);
    }
    lemma_point_none(back, key);
}

/// A sequence of at most one key is sorted.
pub proof fn lemma_short_sorted(keys: Seq<i32>)
    requires
        keys.len() <= 1,
    ensures
        sorted(keys),
{
    reveal(sorted);
}

/// In a sorted sequence an earlier key is at most a later one.
pub proof fn lemma_sorted_at(keys: Seq<i32>, a: int, b: int)
    requires
        sorted(keys),
        0 <= a <= b < keys.len(),
    ensures
        keys[a] <= keys[b],
{
    reveal(sorted);
}

} // verus!
