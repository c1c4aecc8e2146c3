//! The mathematical model of a ring buffer's content.

use vstd::pervasive::cloned;
use vstd::prelude::*;

verus! {

/// The content after pushing `v` into content `s` held in a buffer of capacity `cap`:
/// when `s` is full its oldest value leaves first.
pub open spec fn pushed<T>(s: Seq<T>, cap: nat, v: T) -> Seq<T> {
    if s.len() >= cap {
        s.skip(1).push(v)
    } else {
        s.push(v)
    }
}

/// The content after pushing the values of `vs`, in order, into content `s`
/// held in a buffer of capacity `cap`.
pub open spec fn pushed_all<T>(s: Seq<T>, cap: nat, vs: Seq<T>) -> Seq<T>
    decreases vs.len(),
{
    if vs.len() == 0 {
        s
    } else {
        pushed(pushed_all(s, cap, vs.drop_last()), cap, vs.last())
    }
}

/// `b` holds, in the same order, a copy of each value of `a`.
pub open spec fn clones_of<T: Clone>(a: Seq<T>, b: Seq<T>) -> bool {
    &&& a.len() == b.len()
    &&& forall|k: int| 0 <= k < a.len() ==> cloned(a[k], #[trigger] b[k])
}

/// The number of values a drain moves when the sink has room for `room` values.
pub open spec fn moved_count(len: nat, room: nat) -> nat {
    if len <= room {
        len
    } else {
        room
    }
}

/// Texts separated by a comma and a space.
pub open spec fn joined(texts: Seq<Seq<char>>) -> Seq<char>
    decreases texts.len(),
{
    if texts.len() == 0 {
        Seq::empty()
    } else if texts.len() == 1 {
        texts[0]
    } else {
        joined(texts.drop_last()) + ", "@ + texts.last()
    }
}

/// How a buffer whose values read as `texts`, oldest first, is shown.
pub open spec fn rendered(texts: Seq<Seq<char>>) -> Seq<char> {
    if texts.len() == 0 {
        "CircularBuffer(<empty>)"@
    } else {
        "CircularBuffer("@ + joined(texts) + ")"@
    }
}

/// How the debug form of a buffer shows: its values as `items`, oldest first,
/// then its write cursor, read cursor, capacity and full flag as texts.
pub open spec fn rendered_debug(
    items: Seq<Seq<char>>,
    w: Seq<char>,
    r: Seq<char>,
    size: Seq<char>,
    full: Seq<char>,
) -> Seq<char> {
    if items.len() == 0 {
        "CircularBuffer(<empty>)"@
    } else {
        "CircularBuffer("@ + joined(items) + ") w: "@ + w + ", r: "@ + r + ", size: "@ + size
            + ", full: "@ + full
    }
}

/// However many values are pushed, a buffer of capacity `cap >= 1` never
/// holds more than `cap` of them.
pub proof fn lemma_len_within_capacity<T>(s: Seq<T>, cap: nat, vs: Seq<T>)
    requires
        cap >= 1,
        s.len() <= cap,
    ensures
        pushed_all(s, cap, vs).len() <= cap,
    decreases vs.len(),
{
    if vs.len() > 0 {
        lemma_len_within_capacity(s, cap, vs.drop_last());
    }
}

/// An empty buffer of capacity `cap >= 1` holds, after a run of pushes, the
/// last `cap` values pushed (all of them if fewer), oldest first.
pub proof fn lemma_pushes_keep_newest<T>(cap: nat, vs: Seq<T>)
    requires
        cap >= 1,
    ensures
        pushed_all(Seq::empty(), cap, vs) == vs.subrange(
            if vs.len() > cap { vs.len() - cap } else { 0 },
            vs.len() as int,
        ),
    decreases vs.len(),
{
    if vs.len() > 0 {
        let prev = vs.drop_last();
        lemma_pushes_keep_newest(cap, prev);
        let start = if vs.len() > cap { vs.len() - cap } else { 0int };
        let prev_start = if prev.len() > cap { prev.len() - cap } else { 0int };
        let held = prev.subrange(prev_start, prev.len() as int);
        if held.len() >= cap {
            assert(held.skip(1).push(vs.last()) =~= vs.subrange(start, vs.len() as int));
        } else {
            assert(held.push(vs.last()) =~= vs.subrange(start, vs.len() as int));
        }
    }
}

/// Pushing exactly `cap` values into an empty buffer of capacity `cap` fills
/// it: it holds all of them, in order, with no free slot left.
pub proof fn lemma_exact_fill<T>(cap: nat, vs: Seq<T>)
    requires
        cap >= 1,
        vs.len() == cap,
    ensures
        pushed_all(Seq::empty(), cap, vs) == vs,
        pushed_all(Seq::empty(), cap, vs).len() == cap,
        cap - pushed_all(Seq::empty(), cap, vs).len() == 0,
{
    lemma_pushes_keep_newest(cap, vs);
    assert(vs.subrange(0, vs.len() as int) =~= vs);
}

/// Pushing more than `cap` values into an empty buffer of capacity `cap`
/// leaves it full, holding exactly the last `cap` values, oldest first.
pub proof fn lemma_overflow_keeps_last<T>(cap: nat, vs: Seq<T>)
    requires
        cap >= 1,
        vs.len() > cap,
    ensures
        pushed_all(Seq::empty(), cap, vs).len() == cap,
        pushed_all(Seq::empty(), cap, vs) == vs.subrange(vs.len() - cap, vs.len() as int),
{
    lemma_pushes_keep_newest(cap, vs);
}

/// A drain into room for `room` values moves `min(len, room)` values: the
/// oldest ones, in order; the buffer keeps exactly the others.
pub proof fn lemma_drain_moves_oldest<T>(s: Seq<T>, room: nat)
    ensures
        moved_count(s.len(), room) == (if s.len() <= room { s.len() } else { room }),
        s.take(moved_count(s.len(), room) as int).len() == moved_count(s.len(), room),
        s.skip(moved_count(s.len(), room) as int).len() == s.len() - moved_count(s.len(), room),
        s.take(moved_count(s.len(), room) as int) + s.skip(moved_count(s.len(), room) as int)
            == s,
        room == 0 ==> s.skip(moved_count(s.len(), room) as int) == s,
        s.len() <= room ==> s.skip(moved_count(s.len(), room) as int).len() == 0,
{
    let m = moved_count(s.len(), room) as int;
    assert(s.take(m) + s.skip(m) =~= s);
    assert(room == 0 ==> s.skip(m) =~= s);
}

/// Two buffers whose contents are copies of each other, drained into equal
/// room, hand out copies of each other and keep copies of each other.
pub proof fn lemma_copies_drain_alike<T: Clone>(a: Seq<T>, b: Seq<T>, room: nat)
    requires
        clones_of(a, b),
    ensures
        moved_count(a.len(), room) == moved_count(b.len(), room),
        clones_of(
            a.take(moved_count(a.len(), room) as int),
            b.take(moved_count(b.len(), room) as int),
        ),
        clones_of(
            a.skip(moved_count(a.len(), room) as int),
            b.skip(moved_count(b.len(), room) as int),
        ),
{
    let m = moved_count(a.len(), room) as int;
    assert forall|k: int| 0 <= k < a.skip(m).len() implies cloned(
        a.skip(m)[k],
        #[trigger] b.skip(m)[k],
    ) by {
        assert(cloned(a[k + m], b[k + m]));
    }
}

/// Two buffers of one capacity whose contents are copies of each other stay
/// so when each gets a copy of the same pushed value.
pub proof fn lemma_copies_push_alike<T: Clone>(a: Seq<T>, b: Seq<T>, cap: nat, v: T, u: T)
    requires
        cap >= 1,
        clones_of(a, b),
        cloned(v, u),
    ensures
        clones_of(pushed(a, cap, v), pushed(b, cap, u)),
{
    let pa = pushed(a, cap, v);
    let pb = pushed(b, cap, u);
    let drop = if a.len() >= cap { 1int } else { 0int };
    assert(pa.len() == a.len() - drop + 1);
    assert(pb.len() == pa.len());
    assert forall|k: int| 0 <= k < pa.len() implies cloned(pa[k], #[trigger] pb[k]) by {
        if k + 1 < pa.len() {
            assert(pa[k] == a[k + drop]);
            assert(pb[k] == b[k + drop]);
            assert(cloned(a[k + drop], b[k + drop]));
        }
    }
}

/// A copy of a `u32` is the same `u32`: contents that are copies of each other
/// are equal, so a buffer of `u32` and its clone hold the same values.
pub proof fn lemma_integer_copies_equal(a: Seq<u32>, b: Seq<u32>)
    requires
        clones_of(a, b),
    ensures
        a == b,
{
    assert forall|k: int| 0 <= k < a.len() implies a[k] == b[k] by {
        assert(cloned(a[k], b[k]));
    }
    assert(a =~= b);
}

} // verus!
