use vstd::prelude::*;

verus! {

/// `s` with `x` added at the end, unless it is there already.
pub open spec fn with_id(s: Seq<Seq<char>>, x: Seq<char>) -> Seq<Seq<char>> {
    if s.contains(x) {
        s
    } else {
        s.push(x)
    }
}

/// `s` without `x`, the others in their order.
pub open spec fn without_id(s: Seq<Seq<char>>, x: Seq<char>) -> Seq<Seq<char>>
    decreases s.len(),
{
    if s.len() == 0 {
        s
    } else if s.last() == x {
        without_id(s.drop_last(), x)
    } else {
        without_id(s.drop_last(), x).push(s.last())
    }
}

/// `s` followed by those of `t` that `s` lacks, each once, in the order of `t`.
pub open spec fn union_ids(s: Seq<Seq<char>>, t: Seq<Seq<char>>) -> Seq<Seq<char>>
    decreases t.len(),
{
    if t.len() == 0 {
        s
    } else {
        with_id(union_ids(s, t.drop_last()), t.last())
    }
}

/// What `without_id` keeps: exactly the members other than `x`, still distinct, and fewer if
/// `x` was a member.
pub proof fn lemma_without_id(s: Seq<Seq<char>>, x: Seq<char>)
    ensures
        forall|y: Seq<char>| #[trigger] without_id(s, x).contains(y) <==> s.contains(y) && y != x,
        s.no_duplicates() ==> without_id(s, x).no_duplicates(),
        without_id(s, x).len() <= s.len(),
        s.contains(x) ==> without_id(s, x).len() < s.len(),
        !s.contains(x) ==> without_id(s, x) == s,
    decreases s.len(),
{
    if s.len() > 0 {
        let front = s.drop_last();
        let r = without_id(front, x);
        lemma_without_id(front, x);
        assert(s =~= front.push(s.last()));
        assert forall|y: Seq<char>| #[trigger] without_id(s, x).contains(y) <==> s.contains(y) && y
            != x by {
            lemma_push_contains(front, s.last(), y);
            if s.last() != x {
                lemma_push_contains(r, s.last(), y);
            }
        }
        if s.no_duplicates() {
            assert(front.no_duplicates());
            if s.last() != x {
                assert(!front.contains(s.last())) by {
                    if front.contains(s.last()) {
                        let i = choose|i: int| 0 <= i < front.len() && front[i] == s.last();
                        assert(s[i] == s[s.len() - 1]);
                    }
                }
                lemma_push_distinct(r, s.last());
            }
        }
        if s.contains(x) {
            lemma_push_contains(front, s.last(), x);
        }
        if !s.contains(x) {
            lemma_push_contains(front, s.last(), x);
            assert(r == front);
        }
    }
}

/// Membership in a sequence that grew by one.
pub proof fn lemma_push_contains(s: Seq<Seq<char>>, x: Seq<char>, y: Seq<char>)
    ensures
        s.push(x).contains(y) <==> s.contains(y) || y == x,
{
    if s.push(x).contains(y) {
        let i = choose|i: int| 0 <= i < s.push(x).len() && s.push(x)[i] == y;
        if i < s.len() {
            assert(s[i] == y);
        }
    }
    if s.contains(y) {
        let i = choose|i: int| 0 <= i < s.len() && s[i] == y;
        assert(s.push(x)[i] == y);
    }
    if y == x {
        assert(s.push(x)[s.len() as int] == y);
    }
}

/// A new last element keeps a sequence free of repetition.
pub proof fn lemma_push_distinct(s: Seq<Seq<char>>, x: Seq<char>)
    requires
        s.no_duplicates(),
        !s.contains(x),
    ensures
        s.push(x).no_duplicates(),
{
    assert forall|i: int, j: int|
        0 <= i < s.push(x).len() && 0 <= j < s.push(x).len() && i != j implies s.push(x)[i]
        != s.push(x)[j] by {
        if i < s.len() && j < s.len() {
        } else if i < s.len() {
            assert(s.contains(s[i]));
        } else {
            assert(s.contains(s[j]));
        }
    }
}

/// What `with_id` holds: the old members and `x`, still distinct.
pub proof fn lemma_with_id(s: Seq<Seq<char>>, x: Seq<char>)
    ensures
        forall|y: Seq<char>| #[trigger] with_id(s, x).contains(y) <==> s.contains(y) || y == x,
        s.no_duplicates() ==> with_id(s, x).no_duplicates(),
        s.len() <= with_id(s, x).len() <= s.len() + 1,
{
    assert forall|y: Seq<char>| #[trigger] with_id(s, x).contains(y) <==> s.contains(y) || y
        == x by {
        lemma_push_contains(s, x, y);
    }
    if s.no_duplicates() && !s.contains(x) {
        lemma_push_distinct(s, x);
    }
}

/// What `union_ids` holds: the members of both, distinct if `s` was.
pub proof fn lemma_union_ids(s: Seq<Seq<char>>, t: Seq<Seq<char>>)
    ensures
        forall|y: Seq<char>| #[trigger] union_ids(s, t).contains(y) <==> s.contains(y) || t.contains(y),
        s.no_duplicates() ==> union_ids(s, t).no_duplicates(),
        s.len() <= union_ids(s, t).len(),
    decreases t.len(),
{
    if t.len() > 0 {
        let front = t.drop_last();
        lemma_union_ids(s, front);
        lemma_with_id(union_ids(s, front), t.last());
        assert(t =~= front.push(t.last()));
        assert forall|y: Seq<char>| #[trigger] union_ids(s, t).contains(y) <==> s.contains(y)
            || t.contains(y) by {
            lemma_push_contains(front, t.last(), y);
        }
    }
}

/// The texts that a vector of strings holds, in order.
pub open spec fn texts(v: Seq<String>) -> Seq<Seq<char>> {
    Seq::new(v.len(), |i: int| v[i]@)
}

/// A set of identifiers that remembers the order in which they came.
#[derive(Debug)]
pub struct IdSet {
    ids: Vec<String>,
}

impl View for IdSet {
    type V = Seq<Seq<char>>;

    closed spec fn view(&self) -> Seq<Seq<char>> {
        texts(self.ids@)
    }
}

impl IdSet {
    /// The members as a mathematical set.
    pub open spec fn set(&self) -> Set<Seq<char>> {
        self@.to_set()
    }

    /// Whether no identifier occurs twice. Every set that this type makes is valid, and
    /// every change that it offers keeps a valid set valid.
    pub open spec fn valid(&self) -> bool {
        self@.no_duplicates()
    }

    /// The empty set.
    pub fn new() -> (r: IdSet)
        ensures
            r@ == Seq::<Seq<char>>::empty(),
            r.valid(),
    {
        let r = IdSet { ids: Vec::new() };
        assert(r@ =~= Seq::<Seq<char>>::empty());
        r
    }

    pub fn len(&self) -> (r: usize)
        ensures
            r == self@.len(),
    {
        self.ids.len()
    }

    pub fn is_empty(&self) -> (r: bool)
        ensures
            r == (self@.len() == 0),
    {
        self.ids.len() == 0
    }

    /// The member at position `i`.
    pub fn get(&self, i: usize) -> (r: &String)
        requires
            i < self@.len(),
        ensures
            r@ == self@[i as int],
    {
        &self.ids[i]
    }

    pub fn contains(&self, id: &str) -> (r: bool)
        ensures
            r == self@.contains(id@),
    {
        let mut i: usize = 0;
        while i < self.ids.len()
            invariant
                i <= self.ids.len(),
                forall|j: int| 0 <= j < i ==> self@[j] != id@,
            decreases self.ids.len() - i,
        {
            if crate::text::same(self.ids[i].as_str(), id) {
                assert(self@[i as int] == id@);
                return true;
            }
            i += 1;
        }
        false
    }

    /// Adds `id` unless it is a member; says whether it was added.
    pub fn insert(&mut self, id: String) -> (r: bool)
        ensures
            final(self)@ == with_id(old(self)@, id@),
            r == !old(self)@.contains(id@),
            old(self).valid() ==> final(self).valid(),
    {
        proof {
            lemma_with_id(self@, id@);
        }
        if self.contains(id.as_str()) {
            false
        } else {
            proof {
                assert(texts(self.ids@.push(id)) =~= self@.push(id@));
            }
            self.ids.push(id);
            true
        }
    }

    /// Takes `id` out; says whether it was a member.
    pub fn remove(&mut self, id: &str) -> (r: bool)
        ensures
            final(self)@ == without_id(old(self)@, id@),
            r == old(self)@.contains(id@),
            old(self).valid() ==> final(self).valid(),
    {
        let mut kept: Vec<String> = Vec::new();
        let mut found = false;
        let mut i: usize = 0;
        while i < self.ids.len()
            invariant
                i <= self.ids.len(),
                texts(kept@) == without_id(self@.take(i as int), id@),
                found == self@.take(i as int).contains(id@),
            decreases self.ids.len() - i,
        {
            proof {
                assert(self@.take(i + 1).drop_last() =~= self@.take(i as int));
                assert(self@.take(i + 1).last() == self@[i as int]);
                lemma_push_contains(self@.take(i as int), self@[i as int], id@);
                assert(self@.take(i + 1) =~= self@.take(i as int).push(self@[i as int]));
            }
            if crate::text::same(self.ids[i].as_str(), id) {
                found = true;
            } else {
                let item = self.ids[i].clone();
                proof {
                    assert(texts(kept@.push(item)) =~= texts(kept@).push(item@));
                }
                kept.push(item);
            }
            i += 1;
        }
        proof {
            assert(self@.take(self@.len() as int) =~= self@);
            lemma_without_id(self@, id@);
        }
        self.ids = kept;
        found
    }

    /// Adds every member of `other`.
    pub fn extend(&mut self, other: &IdSet)
        ensures
            final(self)@ == union_ids(old(self)@, other@),
            old(self).valid() ==> final(self).valid(),
    {
        proof {
            lemma_union_ids(self@, other@);
        }
        let mut i: usize = 0;
        while i < other.len()
            invariant
                i <= other@.len(),
                self@ == union_ids(old(self)@, other@.take(i as int)),
            decreases other@.len() - i,
        {
            proof {
                assert(other@.take(i + 1).drop_last() =~= other@.take(i as int));
                assert(other@.take(i + 1).last() == other@[i as int]);
            }
            self.insert(other.get(i).clone());
            i += 1;
        }
        proof {
            assert(other@.take(other@.len() as int) =~= other@);
        }
    }

    /// The set that holds `id` alone.
    pub fn single(id: String) -> (r: IdSet)
        ensures
            r@ == seq![id@],
            r.valid(),
    {
        let mut r = IdSet::new();
        r.insert(id);
        assert(r@ =~= seq![id@]);
        r
    }

    /// The set of the strings in `v`, each once, in the order of their first occurrence.
    pub fn from_vec(v: &Vec<String>) -> (r: IdSet)
        ensures
            r@ == union_ids(Seq::empty(), texts(v@)),
            r.valid(),
    {
        proof {
            lemma_union_ids(Seq::empty(), texts(v@));
        }
        let mut r = IdSet::new();
        let mut i: usize = 0;
        while i < v.len()
            invariant
                i <= v.len(),
                r@ == union_ids(Seq::empty(), texts(v@).take(i as int)),
            decreases v.len() - i,
        {
            proof {
                assert(texts(v@).take(i + 1).drop_last() =~= texts(v@).take(i as int));
                assert(texts(v@).take(i + 1).last() == v@[i as int]@);
            }
            r.insert(v[i].clone());
            i += 1;
        }
        proof {
            assert(texts(v@).take(v@.len() as int) =~= texts(v@));
        }
        r
    }

    /// The members, in order.
    pub fn to_vec(&self) -> (r: Vec<String>)
        ensures
            texts(r@) == self@,
    {
        let mut r: Vec<String> = Vec::new();
        let mut i: usize = 0;
        while i < self.ids.len()
            invariant
                i <= self.ids.len(),
                r@.len() == i,
                forall|j: int| 0 <= j < i ==> r@[j]@ == self@[j],
            decreases self.ids.len() - i,
        {
            r.push(self.ids[i].clone());
            i += 1;
        }
        assert(texts(r@) =~= self@);
        r
    }
}

impl Clone for IdSet {
    fn clone(&self) -> (r: IdSet)
        ensures
            r@ == self@,
    {
        let ids = self.to_vec();
        IdSet { ids }
    }
}

} // verus!
