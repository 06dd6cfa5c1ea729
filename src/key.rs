use vstd::prelude::*;

verus! {

/// A token of a key sequence. Two tokens name the same edge of a trie
/// exactly when their views are equal.
pub trait TrieKey: View + Default + Sized {
    fn key_eq(&self, other: &Self) -> (r: bool)
        ensures
            r == (self@ == other@),
    ;

    /// An equal token, owned.
    fn duplicate(&self) -> (r: Self)
        ensures
            r == *self,
    ;
}

/// The view of a key sequence: the sequence of its tokens' views.
pub open spec fn path_of<Idx: View>(s: Seq<Idx>) -> Seq<Idx::V> {
    s.map_values(|k: Idx| k@)
}

/// `r`, an answer that borrows from the structure, gives the value `v`.
pub open spec fn found<T>(r: Option<&T>, v: Option<T>) -> bool {
    match r {
        Some(x) => v == Some(*x),
        None => v is None,
    }
}

/// `q` is a prefix of `p`, `p` itself included.
pub open spec fn is_prefix<K>(q: Seq<K>, p: Seq<K>) -> bool {
    q.len() <= p.len() && q == p.subrange(0, q.len() as int)
}

/// A prefix of `p` that is not `p`.
pub open spec fn is_strict_prefix<K>(q: Seq<K>, p: Seq<K>) -> bool {
    is_prefix(q, p) && q.len() < p.len()
}

/// Prefixes of two sequences that start alike are prefixes of their tails.
pub proof fn lemma_prefix_step<K>(q: Seq<K>, p: Seq<K>)
    requires
        q.len() > 0,
        p.len() > 0,
    ensures
        is_prefix(q, p) <==> q[0] == p[0] && is_prefix(q.drop_first(), p.drop_first()),
        q.len() < p.len() ==> p.subrange(0, q.len() as int + 1).drop_first() == p.drop_first().subrange(0, q.len() as int),
        q.len() < p.len() ==> p.subrange(0, q.len() as int + 1).len() == q.len() + 1 && p.subrange(0, q.len() as int + 1)[0] == p[0],
{
    if q[0] == p[0] && is_prefix(q.drop_first(), p.drop_first()) {
        assert forall|j: int| 0 <= j < q.len() implies q[j] == p.subrange(0, q.len() as int)[j] by {
            if j > 0 {
                assert(q[j] == q.drop_first()[j - 1]);
            }
        }
        assert(q =~= p.subrange(0, q.len() as int));
    }
    if is_prefix(q, p) {
        assert(q.drop_first() =~= p.drop_first().subrange(0, q.drop_first().len() as int));
    }
    if q.len() < p.len() {
        assert(p.subrange(0, q.len() as int + 1).drop_first() =~= p.drop_first().subrange(0, q.len() as int));
    }
}

pub proof fn lemma_path_of_drop_first<Idx: View>(s: Seq<Idx>)
    requires
        s.len() > 0,
    ensures
        path_of(s).len() == s.len(),
        path_of(s)[0] == s[0]@,
        path_of(s.drop_first()) == path_of(s).drop_first(),
{
    assert(path_of(s.drop_first()) =~= path_of(s).drop_first());
}

impl<'a> TrieKey for &'a str {
    fn key_eq(&self, other: &Self) -> (r: bool) {
        let n = self.unicode_len();
        if n != other.unicode_len() {
            return false;
        }
        let mut i: usize = 0;
        while i < n
            invariant
                n == self@.len(),
                n == other@.len(),
                i <= n,
                forall|j: int| 0 <= j < i ==> self@[j] == other@[j],
            decreases n - i,
        {
            if self.get_char(i) != other.get_char(i) {
                return false;
            }
            i += 1;
        }
        proof {
            assert(self@ =~= other@);
        }
        true
    }

    fn duplicate(&self) -> (r: Self) {
        *self
    }
}

impl TrieKey for char {
    fn key_eq(&self, other: &Self) -> (r: bool) {
        *self == *other
    }

    fn duplicate(&self) -> (r: Self) {
        *self
    }
}

impl TrieKey for u8 {
    fn key_eq(&self, other: &Self) -> (r: bool) {
        *self == *other
    }

    fn duplicate(&self) -> (r: Self) {
        *self
    }
}

impl TrieKey for u16 {
    fn key_eq(&self, other: &Self) -> (r: bool) {
        *self == *other
    }

    fn duplicate(&self) -> (r: Self) {
        *self
    }
}

impl TrieKey for u32 {
    fn key_eq(&self, other: &Self) -> (r: bool) {
        *self == *other
    }

    fn duplicate(&self) -> (r: Self) {
        *self
    }
}

impl TrieKey for u64 {
    fn key_eq(&self, other: &Self) -> (r: bool) {
        *self == *other
    }

    fn duplicate(&self) -> (r: Self) {
        *self
    }
}

impl TrieKey for usize {
    fn key_eq(&self, other: &Self) -> (r: bool) {
        *self == *other
    }

    fn duplicate(&self) -> (r: Self) {
        *self
    }
}

impl TrieKey for i32 {
    fn key_eq(&self, other: &Self) -> (r: bool) {
        *self == *other
    }

    fn duplicate(&self) -> (r: Self) {
        *self
    }
}

impl TrieKey for i64 {
    fn key_eq(&self, other: &Self) -> (r: bool) {
        *self == *other
    }

    fn duplicate(&self) -> (r: Self) {
        *self
    }
}

impl TrieKey for String {
    fn key_eq(&self, other: &Self) -> (r: bool) {
        *self == *other
    }

    fn duplicate(&self) -> (r: Self) {
        self.clone()
    }
}

} // verus!
