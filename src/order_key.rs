//! Order keys: opaque strings that place a node among its siblings.
//!
//! Keys are compared lexicographically, character by character, a proper
//! prefix sorting first. New keys are made by extending an existing key, so
//! no precision is ever lost: between two keys that leave room, a third key
//! that again leaves room on both sides can always be found.
use vstd::prelude::*;
use vstd::string::*;

verus! {

/// Strict lexicographic order on keys.
pub open spec fn key_lt(a: Seq<char>, b: Seq<char>) -> bool
    decreases a.len(),
{
    if b.len() == 0 {
        false
    } else if a.len() == 0 {
        true
    } else if a[0] != b[0] {
        (a[0] as int) < (b[0] as int)
    } else {
        key_lt(a.drop_first(), b.drop_first())
    }
}

/// Lexicographic order on keys, equal keys included.
pub open spec fn key_le(a: Seq<char>, b: Seq<char>) -> bool {
    a == b || key_lt(a, b)
}

pub open spec fn is_prefix(a: Seq<char>, b: Seq<char>) -> bool {
    a.len() <= b.len() && b.subrange(0, a.len() as int) == a
}

/// No key sorts before itself.
pub proof fn lemma_key_lt_irreflexive(a: Seq<char>)
    ensures
        !key_lt(a, a),
    decreases a.len(),
{
    if a.len() > 0 {
        lemma_key_lt_irreflexive(a.drop_first());
    }
}

/// Any two distinct keys are ordered one way or the other, and never both.
pub proof fn lemma_key_lt_total(a: Seq<char>, b: Seq<char>)
    ensures
        a == b || key_lt(a, b) || key_lt(b, a),
        !(key_lt(a, b) && key_lt(b, a)),
    decreases a.len(),
{
    if a.len() > 0 && b.len() > 0 && a[0] == b[0] {
        lemma_key_lt_total(a.drop_first(), b.drop_first());
        if a.drop_first() == b.drop_first() {
            assert(a == seq![a[0]] + a.drop_first());
            assert(b == seq![b[0]] + b.drop_first());
        }
    } else if a.len() == 0 && b.len() == 0 {
        assert(a =~= b);
    } else if a.len() > 0 && b.len() > 0 {
        assert((a[0] as int) != (b[0] as int));
    }
}

pub proof fn lemma_key_lt_transitive(a: Seq<char>, b: Seq<char>, c: Seq<char>)
    requires
        key_lt(a, b),
        key_lt(b, c),
    ensures
        key_lt(a, c),
    decreases a.len(),
{
    if a.len() > 0 && a[0] == b[0] && b[0] == c[0] {
        lemma_key_lt_transitive(a.drop_first(), b.drop_first(), c.drop_first());
    }
}

pub proof fn lemma_key_le_transitive(a: Seq<char>, b: Seq<char>, c: Seq<char>)
    requires
        key_le(a, b),
        key_le(b, c),
    ensures
        key_le(a, c),
{
    if a != b && b != c {
        lemma_key_lt_transitive(a, b, c);
    }
}

pub proof fn lemma_key_le_lt_transitive(a: Seq<char>, b: Seq<char>, c: Seq<char>)
    requires
        key_le(a, b),
        key_lt(b, c),
    ensures
        key_lt(a, c),
{
    if a != b {
        lemma_key_lt_transitive(a, b, c);
    }
}

pub proof fn lemma_key_lt_le_transitive(a: Seq<char>, b: Seq<char>, c: Seq<char>)
    requires
        key_lt(a, b),
        key_le(b, c),
    ensures
        key_lt(a, c),
{
    if b != c {
        lemma_key_lt_transitive(a, b, c);
    }
}

/// The index of the first character of `t` above `'0'`, or `t.len()` if none is.
pub open spec fn first_above_zero(t: Seq<char>) -> nat
    decreases t.len(),
{
    if t.len() == 0 {
        0
    } else if (t[0] as int) > ('0' as int) {
        0
    } else {
        1 + first_above_zero(t.drop_first())
    }
}

/// `a < b`, and `b` is not `a` followed only by characters at or below `'0'`:
/// then a key strictly between them can be made by extending `a`.
pub open spec fn room_between(a: Seq<char>, b: Seq<char>) -> bool {
    &&& key_lt(a, b)
    &&& !(is_prefix(a, b) && first_above_zero(b.subrange(a.len() as int, b.len() as int))
        == b.len() - a.len())
}

/// The key that `fractional_midpoint` makes from `a` and `b`.
pub open spec fn midpoint_key(a: Seq<char>, b: Seq<char>) -> Seq<char> {
    let t = b.subrange(a.len() as int, b.len() as int);
    let j = first_above_zero(t);
    if is_prefix(a, b) && j < t.len() {
        a + t.subrange(0, j as int) + seq!['0', '5']
    } else {
        a + seq!['5']
    }
}

proof fn lemma_first_above_zero(t: Seq<char>)
    ensures
        first_above_zero(t) <= t.len(),
        first_above_zero(t) < t.len() ==> (t[first_above_zero(t) as int] as int) > ('0' as int),
        forall|k: int| 0 <= k < first_above_zero(t) ==> (#[trigger] t[k] as int) <= ('0' as int),
    decreases t.len(),
{
    if t.len() > 0 && (t[0] as int) <= ('0' as int) {
        lemma_first_above_zero(t.drop_first());
        assert forall|k: int| 0 <= k < first_above_zero(t) implies (#[trigger] t[k] as int) <= (
        '0' as int) by {
            if k > 0 {
                assert(t[k] == t.drop_first()[k - 1]);
            }
        }
    }
}

/// A key sorts before every proper extension of it.
pub proof fn lemma_key_lt_extension(a: Seq<char>, x: Seq<char>)
    requires
        x.len() > 0,
    ensures
        key_lt(a, a + x),
    decreases a.len(),
{
    if a.len() > 0 {
        assert((a + x).drop_first() == a.drop_first() + x);
        lemma_key_lt_extension(a.drop_first(), x);
    }
}

/// Keys that agree up to a position and then differ are ordered by that position.
proof fn lemma_key_lt_at(p: Seq<char>, x: Seq<char>, y: Seq<char>)
    requires
        x.len() > 0,
        y.len() > 0,
        (x[0] as int) < (y[0] as int),
    ensures
        key_lt(p + x, p + y),
    decreases p.len(),
{
    if p.len() > 0 {
        assert((p + x).drop_first() == p.drop_first() + x);
        assert((p + y).drop_first() == p.drop_first() + y);
        lemma_key_lt_at(p.drop_first(), x, y);
    } else {
        assert(p + x == x);
        assert(p + y == y);
    }
}

/// Extending a key that is below `b` without being a prefix of it keeps it below `b`.
proof fn lemma_key_lt_extend_non_prefix(a: Seq<char>, b: Seq<char>, x: Seq<char>)
    requires
        key_lt(a, b),
        !is_prefix(a, b),
    ensures
        key_lt(a + x, b),
        !is_prefix(a + x, b),
    decreases a.len(),
{
    if a.len() == 0 {
        assert(b.subrange(0, 0) == a);
    } else if a[0] == b[0] {
        assert((a + x).drop_first() == a.drop_first() + x);
        if is_prefix(a.drop_first(), b.drop_first()) {
            assert(b.subrange(0, a.len() as int) == seq![b[0]] + b.drop_first().subrange(
                0,
                a.drop_first().len() as int,
            ));
            assert(a == seq![a[0]] + a.drop_first());
        }
        lemma_key_lt_extend_non_prefix(a.drop_first(), b.drop_first(), x);
        if is_prefix(a + x, b) {
            assert(b.drop_first().subrange(0, (a + x).drop_first().len() as int)
                == b.subrange(0, (a + x).len() as int).drop_first());
        }
    } else {
        if is_prefix(a + x, b) {
            assert(b.subrange(0, (a + x).len() as int)[0] == b[0]);
        }
    }
}

/// The midpoint of two keys with room between them lies strictly between them,
/// and leaves room on both of its sides, so that insertion between the same
/// neighbours can go on without end.
pub proof fn lemma_midpoint_between(a: Seq<char>, b: Seq<char>)
    requires
        room_between(a, b),
    ensures
        key_lt(a, midpoint_key(a, b)),
        key_lt(midpoint_key(a, b), b),
        room_between(a, midpoint_key(a, b)),
        room_between(midpoint_key(a, b), b),
{
    let t = b.subrange(a.len() as int, b.len() as int);
    let j = first_above_zero(t);
    let m = midpoint_key(a, b);
    lemma_first_above_zero(t);
    if is_prefix(a, b) && j < t.len() {
        let p = a + t.subrange(0, j as int);
        let tail = t.subrange(0, j as int) + seq!['0', '5'];
        assert(m == a + tail);
        lemma_key_lt_extension(a, tail);
        assert(b == p + t.subrange(j as int, t.len() as int)) by {
            assert(b == b.subrange(0, a.len() as int) + t);
        }
        assert(m == p + seq!['0', '5']);
        lemma_key_lt_at(p, seq!['0', '5'], t.subrange(j as int, t.len() as int));
        // room on the left: the tail holds a '5'
        assert(m.subrange(a.len() as int, m.len() as int) == tail);
        lemma_first_above_zero(tail);
        if first_above_zero(tail) == tail.len() {
            assert(tail[j as int + 1] == '5');
        }
        // room on the right: `m` is no prefix of `b`
        if is_prefix(m, b) {
            assert(m[p.len() as int] == b[p.len() as int]);
        }
    } else {
        let five = seq!['5'];
        lemma_key_lt_extension(a, five);
        assert(m.subrange(a.len() as int, m.len() as int) == five);
        assert(first_above_zero(five) == 0);
        if !is_prefix(a, b) {
            lemma_key_lt_extend_non_prefix(a, b, five);
        }
    }
}

/// The form of the keys this scheme makes, and of its upper sentinel `"1"`:
/// non-empty, ending in a character above `'0'`.
pub open spec fn ends_above_zero(k: Seq<char>) -> bool {
    k.len() > 0 && (k.last() as int) > ('0' as int)
}

/// Below a key of that form, any smaller key leaves room.
pub proof fn lemma_room_from_form(a: Seq<char>, b: Seq<char>)
    requires
        key_lt(a, b),
        ends_above_zero(b),
    ensures
        room_between(a, b),
{
    if is_prefix(a, b) {
        let t = b.subrange(a.len() as int, b.len() as int);
        lemma_first_above_zero(t);
        if a.len() == b.len() {
            assert(b.subrange(0, a.len() as int) == b);
            lemma_key_lt_irreflexive(a);
        }
        assert(t.last() == b.last());
        if first_above_zero(t) == t.len() {
            assert((t[t.len() - 1] as int) <= ('0' as int));
        }
    }
}

/// The midpoint of a key and a larger key of that form lies strictly
/// between them and has that form itself.
pub proof fn lemma_midpoint_form(a: Seq<char>, b: Seq<char>)
    requires
        key_lt(a, b),
        ends_above_zero(b),
    ensures
        key_lt(a, midpoint_key(a, b)),
        key_lt(midpoint_key(a, b), b),
        ends_above_zero(midpoint_key(a, b)),
{
    lemma_room_from_form(a, b);
    lemma_midpoint_between(a, b);
}

/// The key reached after `n` successive insertions just below `b`, each one
/// between `a` and the key made by the one before.
pub open spec fn key_after_insertions_below(a: Seq<char>, b: Seq<char>, n: nat) -> Seq<char>
    decreases n,
{
    if n == 0 {
        b
    } else {
        midpoint_key(a, key_after_insertions_below(a, b, (n - 1) as nat))
    }
}

/// Repeated insertion between the same neighbours never runs out of room:
/// every new key lies strictly between `a` and the key made just before it.
pub proof fn lemma_repeated_insertion(a: Seq<char>, b: Seq<char>, n: nat)
    requires
        room_between(a, b),
    ensures
        room_between(a, key_after_insertions_below(a, b, n)),
        key_lt(a, key_after_insertions_below(a, b, n + 1)),
        key_lt(key_after_insertions_below(a, b, n + 1), key_after_insertions_below(a, b, n)),
    decreases n,
{
    if n > 0 {
        lemma_repeated_insertion(a, b, (n - 1) as nat);
        lemma_midpoint_between(a, key_after_insertions_below(a, b, (n - 1) as nat));
    }
    lemma_midpoint_between(a, key_after_insertions_below(a, b, n));
}

/// The key reached after `n` successive insertions just above `a`, each one
/// between the key made before and `b` (the last place of a list, below the
/// upper sentinel).
pub open spec fn key_after_insertions_above(a: Seq<char>, b: Seq<char>, n: nat) -> Seq<char>
    decreases n,
{
    if n == 0 {
        a
    } else {
        midpoint_key(key_after_insertions_above(a, b, (n - 1) as nat), b)
    }
}

/// Below a key of the scheme's form, insertion between the same neighbours
/// never runs out of room: each new key lies strictly between `a` and the key
/// made just before it.
pub proof fn lemma_repeated_insertion_below(a: Seq<char>, b: Seq<char>, n: nat)
    requires
        key_lt(a, b),
        ends_above_zero(b),
    ensures
        key_lt(a, key_after_insertions_below(a, b, n + 1)),
        key_lt(key_after_insertions_below(a, b, n + 1), key_after_insertions_below(a, b, n)),
{
    lemma_room_from_form(a, b);
    lemma_repeated_insertion(a, b, n);
}

/// Appending after the last key again and again, against an upper key of the
/// scheme's form such as the sentinel `"1"`, never runs out of room: each
/// new key lies strictly between the one made before and `b`.
pub proof fn lemma_repeated_insertion_above(a: Seq<char>, b: Seq<char>, n: nat)
    requires
        key_lt(a, b),
        ends_above_zero(b),
    ensures
        key_lt(key_after_insertions_above(a, b, n), b),
        key_lt(key_after_insertions_above(a, b, n), key_after_insertions_above(a, b, n + 1)),
        key_lt(key_after_insertions_above(a, b, n + 1), b),
    decreases n,
{
    if n > 0 {
        lemma_repeated_insertion_above(a, b, (n - 1) as nat);
    }
    lemma_midpoint_form(key_after_insertions_above(a, b, n), b);
}

/// Makes a key strictly between `a` and `b` when they leave room for one.
pub fn fractional_midpoint(a: &str, b: &str) -> (r: String)
    ensures
        r@ == midpoint_key(a@, b@),
        room_between(a@, b@) ==> key_lt(a@, r@) && key_lt(r@, b@),
        key_lt(a@, b@) && ends_above_zero(b@) ==> key_lt(a@, r@) && key_lt(r@, b@),
        ends_above_zero(r@),
{
    let alen = a.unicode_len();
    let blen = b.unicode_len();
    let mut prefix = alen <= blen;
    let mut i: usize = 0;
    while prefix && i < alen
        invariant
            alen == a@.len(),
            blen == b@.len(),
            i <= alen,
            prefix ==> alen <= blen && a@.subrange(0, i as int) == b@.subrange(0, i as int),
            !prefix ==> !is_prefix(a@, b@),
        decreases alen - i + (if prefix { 1int } else { 0 }),
    {
        if a.get_char(i) != b.get_char(i) {
            prefix = false;
        } else {
            assert(a@.subrange(0, i + 1) == a@.subrange(0, i as int).push(a@[i as int]));
            assert(b@.subrange(0, i + 1) == b@.subrange(0, i as int).push(b@[i as int]));
            i = i + 1;
        }
    }
    let mut r = String::from_str(a);
    if prefix {
        assert(a@.subrange(0, alen as int) == a@);
        let ghost t = b@.subrange(alen as int, blen as int);
        proof {
            lemma_first_above_zero(t);
        }
        let mut j: usize = alen;
        while j < blen && b.get_char(j) <= '0'
            invariant
                alen <= j <= blen,
                alen == a@.len(),
                blen == b@.len(),
                t == b@.subrange(alen as int, blen as int),
                forall|k: int| 0 <= k < j - alen ==> (#[trigger] t[k] as int) <= ('0' as int),
            decreases blen - j,
        {
            j = j + 1;
        }
        proof {
            // `j - alen` is the first index above '0' in the tail
            if j - alen < first_above_zero(t) {
                assert(t[j - alen] == b@[j as int]);
            }
            if j - alen > first_above_zero(t) {
                let f = first_above_zero(t) as int;
                assert((t[f] as int) <= ('0' as int));
            }
        }
        if j < blen {
            let piece = b.substring_char(alen, j);
            r.append(piece);
            r.append("05");
            proof {
                reveal_strlit("05");
                assert(piece@ == t.subrange(0, (j - alen) as int));
                assert(r@ == midpoint_key(a@, b@));
                if key_lt(a@, b@) && ends_above_zero(b@) {
                    lemma_room_from_form(a@, b@);
                }
                if room_between(a@, b@) {
                    lemma_midpoint_between(a@, b@);
                }
            }
            return r;
        }
    }
    r.append("5");
    proof {
        reveal_strlit("5");
        assert(r@ == midpoint_key(a@, b@));
        if key_lt(a@, b@) && ends_above_zero(b@) {
            lemma_room_from_form(a@, b@);
        }
        if room_between(a@, b@) {
            lemma_midpoint_between(a@, b@);
        }
    }
    r
}

} // verus!

verus! {

/// Compares two keys.
pub fn key_less(a: &str, b: &str) -> (r: bool)
    ensures
        r == key_lt(a@, b@),
{
    let alen = a.unicode_len();
    let blen = b.unicode_len();
    let mut i: usize = 0;
    assert(a@.skip(0) == a@);
    assert(b@.skip(0) == b@);
    while i < alen && i < blen
        invariant
            alen == a@.len(),
            blen == b@.len(),
            i <= alen,
            i <= blen,
            key_lt(a@, b@) == key_lt(a@.skip(i as int), b@.skip(i as int)),
        decreases alen - i,
    {
        let ca = a.get_char(i);
        let cb = b.get_char(i);
        assert(a@.skip(i as int)[0] == ca);
        assert(b@.skip(i as int)[0] == cb);
        if ca != cb {
            return ca < cb;
        }
        assert(a@.skip(i as int).drop_first() == a@.skip(i + 1));
        assert(b@.skip(i as int).drop_first() == b@.skip(i + 1));
        i = i + 1;
    }
    i < blen
}

} // verus!

verus! {

/// Whether `a < b` leaves room for `fractional_midpoint` to make a key
/// strictly between them.
pub fn keys_leave_room(a: &str, b: &str) -> (r: bool)
    ensures
        r == room_between(a@, b@),
{
    if !key_less(a, b) {
        return false;
    }
    let alen = a.unicode_len();
    let blen = b.unicode_len();
    if alen > blen {
        return true;
    }
    let mut i: usize = 0;
    while i < alen
        invariant
            alen == a@.len(),
            blen == b@.len(),
            alen <= blen,
            i <= alen,
            key_lt(a@, b@),
            a@.subrange(0, i as int) == b@.subrange(0, i as int),
        decreases alen - i,
    {
        if a.get_char(i) != b.get_char(i) {
            proof {
                if is_prefix(a@, b@) {
                    assert(b@.subrange(0, alen as int)[i as int] == a@[i as int]);
                    assert(b@.subrange(0, alen as int)[i as int] == b@[i as int]);
                }
            }
            return true;
        }
        assert(a@.subrange(0, i + 1) == a@.subrange(0, i as int).push(a@[i as int]));
        assert(b@.subrange(0, i + 1) == b@.subrange(0, i as int).push(b@[i as int]));
        i = i + 1;
    }
    assert(a@.subrange(0, alen as int) == a@);
    assert(is_prefix(a@, b@));
    let ghost t = b@.subrange(alen as int, blen as int);
    proof {
        lemma_first_above_zero(t);
    }
    let mut j: usize = alen;
    while j < blen
        invariant
            alen <= j <= blen,
            alen == a@.len(),
            blen == b@.len(),
            t == b@.subrange(alen as int, blen as int),
            key_lt(a@, b@),
            is_prefix(a@, b@),
            forall|k: int| 0 <= k < j - alen ==> (#[trigger] t[k] as int) <= ('0' as int),
        decreases blen - j,
    {
        if b.get_char(j) > '0' {
            proof {
                lemma_first_above_zero(t);
                assert(t[j - alen] == b@[j as int]);
                if first_above_zero(t) == t.len() {
                    assert((t[j - alen] as int) <= ('0' as int));
                }
            }
            return true;
        }
        assert(t[j - alen] == b@[j as int]);
        j = j + 1;
    }
    proof {
        lemma_first_above_zero(t);
        if first_above_zero(t) < t.len() {
            let f = first_above_zero(t) as int;
            assert((t[f] as int) <= ('0' as int));
        }
    }
    false
}

} // verus!
