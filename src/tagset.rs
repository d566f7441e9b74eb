use vstd::prelude::*;

use crate::dom::strings_view;

verus! {

/// A set of tag names, held in a hashbrown set.
#[verifier::external_body]
pub struct TagSet {
    set: hashbrown::HashSet<String>,
}

/// The names that a tag set holds.
pub uninterp spec fn tag_set(s: TagSet) -> Set<Seq<char>>;

/// The strings of a sequence, as a set.
pub open spec fn set_of(s: Seq<Seq<char>>) -> Set<Seq<char>> {
    Set::new(|x: Seq<char>| s.contains(x))
}

impl TagSet {
    /// Relies on hashbrown::HashSet::new: the set is empty.
    #[verifier::external_body]
    pub fn new() -> (r: TagSet)
        ensures
            tag_set(r) == Set::<Seq<char>>::empty(),
    {
        TagSet { set: hashbrown::HashSet::new() }
    }

    /// Relies on hashbrown::HashSet::insert: afterwards the set holds `t`
    /// besides what it held.
    #[verifier::external_body]
    pub fn insert(&mut self, t: String)
        ensures
            tag_set(*final(self)) == tag_set(*old(self)).insert(t@),
    {
        self.set.insert(t);
    }

    /// Relies on hashbrown::HashSet::contains: whether the set holds a string
    /// equal to `t`.
    #[verifier::external_body]
    pub fn contains(&self, t: &String) -> (r: bool)
        ensures
            r == tag_set(*self).contains(t@),
    {
        self.set.contains(t)
    }

    /// The set of the strings of `v`.
    pub fn from_vec(v: Vec<String>) -> (r: TagSet)
        ensures
            tag_set(r) == set_of(strings_view(v@)),
    {
        let ghost sv = strings_view(v@);
        let mut r = TagSet::new();
        let mut i: usize = 0;
        while i < v.len()
            invariant
                sv == strings_view(v@),
                0 <= i <= v@.len(),
                tag_set(r) == set_of(sv.take(i as int)),
            decreases v@.len() - i,
        {
            r.insert(v[i].clone());
            proof {
                let a = sv.take(i + 1);
                assert(a == sv.take(i as int).push(sv[i as int]));
                assert forall|x: Seq<char>| #[trigger] tag_set(r).contains(x) == set_of(a).contains(x) by {
                    if x == sv[i as int] {
                        assert(a[i as int] == x);
                    } else if set_of(a).contains(x) {
                        let k = choose|k: int| 0 <= k < a.len() && a[k] == x;
                        assert(sv.take(i as int)[k] == x);
                    } else if sv.take(i as int).contains(x) {
                        let k = choose|k: int| 0 <= k < i && sv.take(i as int)[k] == x;
                        assert(a[k] == x);
                    }
                }
                assert(tag_set(r) =~= set_of(a));
            }
            i += 1;
        }
        assert(sv.take(i as int) =~= sv);
        r
    }
}

} // verus!
