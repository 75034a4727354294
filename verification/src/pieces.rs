//! Sequences of pieces used as sets: membership, removal and insertion
//! with the meaning of a hash set's `contains`, `remove` and `insert`.
use vstd::prelude::*;
use crate::piece::Piece;

verus! {

/// `s` without any occurrence of `p`, the rest in their order.
pub open spec fn remove_piece(s: Seq<Piece>, p: Piece) -> Seq<Piece>
    decreases s.len(),
{
    if s.len() == 0 {
        s
    } else {
        let rest = remove_piece(s.drop_last(), p);
        if s.last() == p {
            rest
        } else {
            rest.push(s.last())
        }
    }
}

/// `s` with `p` added at the end unless it is already there.
pub open spec fn insert_piece(s: Seq<Piece>, p: Piece) -> Seq<Piece> {
    if s.contains(p) {
        s
    } else {
        s.push(p)
    }
}

/// The first piece of `s` standing on `pos`, if any.
pub open spec fn first_at(s: Seq<Piece>, pos: (u8, u8)) -> Option<Piece>
    decreases s.len(),
{
    if s.len() == 0 {
        None
    } else if s[0].pos == pos {
        Some(s[0])
    } else {
        first_at(s.drop_first(), pos)
    }
}

/// Some piece of `s` stands on `pos`.
pub open spec fn occupies(s: Seq<Piece>, pos: (u8, u8)) -> bool {
    exists|i: int| 0 <= i < s.len() && s[i].pos == pos
}

/// Removal keeps exactly the other pieces, and keeps a sequence free of duplicates.
pub proof fn lemma_remove_piece(s: Seq<Piece>, p: Piece)
    ensures
        forall|x: Piece| remove_piece(s, p).contains(x) <==> (s.contains(x) && x != p),
        s.no_duplicates() ==> remove_piece(s, p).no_duplicates(),
        remove_piece(s, p).len() <= s.len(),
    decreases s.len(),
{
    if s.len() > 0 {
        lemma_remove_piece(s.drop_last(), p);
        let rest = remove_piece(s.drop_last(), p);
        let res = remove_piece(s, p);
        assert forall|x: Piece| res.contains(x) <==> (s.contains(x) && x != p) by {
            if s.contains(x) && x != p {
                let i = choose|i: int| 0 <= i < s.len() && s[i] == x;
                if i < s.len() - 1 {
                    assert(s.drop_last()[i] == x);
                    assert(s.drop_last().contains(x));
                    assert(rest.contains(x));
                    let j = choose|j: int| 0 <= j < rest.len() && rest[j] == x;
                    if s.last() != p {
                        assert(res[j] == x);
                    }
                } else {
                    assert(res[rest.len() as int] == x);
                }
            }
            if res.contains(x) {
                let j = choose|j: int| 0 <= j < res.len() && res[j] == x;
                if s.last() != p && j == rest.len() {
                    assert(s[s.len() - 1] == x);
                } else {
                    assert(rest[j] == x);
                    assert(rest.contains(x));
                    assert(s.drop_last().contains(x));
                    let k = choose|k: int| 0 <= k < s.drop_last().len() && s.drop_last()[k] == x;
                    assert(s[k] == x);
                }
            }
        }
        if s.no_duplicates() {
            assert(s.drop_last().no_duplicates());
            if s.last() != p {
                assert(!rest.contains(s.last())) by {
                    if s.drop_last().contains(s.last()) {
                        let k = choose|k: int| 0 <= k < s.drop_last().len() && s.drop_last()[k] == s.last();
                        assert(s[k] == s[s.len() - 1]);
                    }
                }
            }
        }
    }
}

/// Insertion adds exactly `p`, and keeps a sequence free of duplicates.
pub proof fn lemma_insert_piece(s: Seq<Piece>, p: Piece)
    ensures
        forall|x: Piece| insert_piece(s, p).contains(x) <==> (s.contains(x) || x == p),
        s.no_duplicates() ==> insert_piece(s, p).no_duplicates(),
{
    assert forall|x: Piece| insert_piece(s, p).contains(x) <==> (s.contains(x) || x == p) by {
        if !s.contains(p) {
            if s.contains(x) {
                let i = choose|i: int| 0 <= i < s.len() && s[i] == x;
                assert(s.push(p)[i] == x);
            }
            if x == p {
                assert(s.push(p)[s.len() as int] == x);
            }
            if s.push(p).contains(x) && x != p {
                let i = choose|i: int| 0 <= i < s.push(p).len() && s.push(p)[i] == x;
                assert(s[i] == x);
            }
        }
    }
}

/// The first piece on `pos` is a member standing on `pos`; there is one exactly
/// when some member stands on `pos`.
pub proof fn lemma_first_at(s: Seq<Piece>, pos: (u8, u8))
    ensures
        first_at(s, pos) is Some <==> occupies(s, pos),
        first_at(s, pos) matches Some(q) ==> s.contains(q) && q.pos == pos,
    decreases s.len(),
{
    if s.len() > 0 {
        lemma_first_at(s.drop_first(), pos);
        if s[0].pos != pos {
            if occupies(s, pos) {
                let i = choose|i: int| 0 <= i < s.len() && s[i].pos == pos;
                assert(s.drop_first()[i - 1].pos == pos);
            }
            if occupies(s.drop_first(), pos) {
                let i = choose|i: int| 0 <= i < s.drop_first().len() && s.drop_first()[i].pos == pos;
                assert(s[i + 1].pos == pos);
            }
            if let Some(q) = first_at(s, pos) {
                let i = choose|i: int| 0 <= i < s.drop_first().len() && s.drop_first()[i] == q;
                assert(s[i + 1] == q);
            }
        }
    }
}

/// Whether `p` is in `v`.
pub fn contains_piece(v: &Vec<Piece>, p: Piece) -> (r: bool)
    ensures
        r == v@.contains(p),
{
    let mut i: usize = 0;
    while i < v.len()
        invariant
            i <= v.len(),
            forall|k: int| 0 <= k < i ==> v@[k] != p,
        decreases v.len() - i,
    {
        if v[i] == p {
            return true;
        }
        i = i + 1;
    }
    false
}

/// A copy of `v` without `p`.
pub fn remove_from(v: &Vec<Piece>, p: Piece) -> (r: Vec<Piece>)
    ensures
        r@ == remove_piece(v@, p),
{
    let mut r: Vec<Piece> = Vec::new();
    let mut i: usize = 0;
    while i < v.len()
        invariant
            i <= v.len(),
            r@ == remove_piece(v@.take(i as int), p),
        decreases v.len() - i,
    {
        assert(v@.take(i + 1).drop_last() == v@.take(i as int));
        if v[i] != p {
            r.push(v[i]);
        }
        i = i + 1;
    }
    assert(v@.take(v.len() as int) == v@);
    r
}

/// Adds `p` to `v` unless it is already there.
pub fn insert_into(v: &mut Vec<Piece>, p: Piece)
    ensures
        final(v)@ == insert_piece(old(v)@, p),
{
    if !contains_piece(v, p) {
        v.push(p);
    }
}

/// The first piece of `v` on `pos`, if any.
pub fn find_at(v: &Vec<Piece>, pos: (u8, u8)) -> (r: Option<Piece>)
    ensures
        r == first_at(v@, pos),
{
    let mut i: usize = 0;
    assert(v@.skip(0) == v@);
    while i < v.len()
        invariant
            i <= v.len(),
            first_at(v@, pos) == first_at(v@.skip(i as int), pos),
        decreases v.len() - i,
    {
        assert(v@.skip(i as int).drop_first() == v@.skip(i + 1));
        assert(v@.skip(i as int)[0] == v@[i as int]);
        if v[i].pos.0 == pos.0 && v[i].pos.1 == pos.1 {
            return Some(v[i]);
        }
        i = i + 1;
    }
    None
}

/// Whether `v` and `w` hold the same pieces, ignoring order.
pub fn same_pieces(v: &Vec<Piece>, w: &Vec<Piece>) -> (r: bool)
    ensures
        r == (v@.to_set() == w@.to_set()),
{
    let a = included(v, w);
    let b = included(w, v);
    proof {
        if a && b {
            assert(v@.to_set() =~= w@.to_set());
        }
        if v@.to_set() == w@.to_set() {
            assert forall|x: Piece| v@.contains(x) implies w@.contains(x) by {
                assert(v@.to_set().contains(x));
            }
            assert forall|x: Piece| w@.contains(x) implies v@.contains(x) by {
                assert(w@.to_set().contains(x));
            }
        }
    }
    a && b
}

/// Whether every piece of `v` is in `w`.
fn included(v: &Vec<Piece>, w: &Vec<Piece>) -> (r: bool)
    ensures
        r == (forall|x: Piece| v@.contains(x) ==> w@.contains(x)),
{
    let mut i: usize = 0;
    while i < v.len()
        invariant
            i <= v.len(),
            forall|k: int| 0 <= k < i ==> w@.contains(#[trigger] v@[k]),
        decreases v.len() - i,
    {
        if !contains_piece(w, v[i]) {
            assert(v@.contains(v@[i as int]));
            return false;
        }
        i = i + 1;
    }
    proof {
        assert forall|x: Piece| v@.contains(x) implies w@.contains(x) by {
            let k = choose|k: int| 0 <= k < v@.len() && v@[k] == x;
            assert(w@.contains(v@[k]));
        }
    }
    true
}

/// A copy of `v`.
pub fn copy_pieces(v: &Vec<Piece>) -> (r: Vec<Piece>)
    ensures
        r@ == v@,
{
    let mut r: Vec<Piece> = Vec::new();
    let mut i: usize = 0;
    while i < v.len()
        invariant
            i <= v.len(),
            r@ == v@.take(i as int),
        decreases v.len() - i,
    {
        r.push(v[i]);
        i = i + 1;
    }
    assert(v@.take(v.len() as int) == v@);
    r
}

} // verus!
