//! The tag table: a mapping from help tags to the documents that explain
//! them, kept in the lexicographic order of the tags.

use crate::order::{
    lemma_lex_asymmetric, lemma_lex_irreflexive, lemma_lex_total, lemma_lex_transitive, lex_le,
    lex_less, lex_order, LexOrder,
};
use vstd::prelude::*;
use vstd::string::*;

verus! {

/// One record of the tag file: a tag and the document that explains it.
#[derive(Clone, Debug, PartialEq, Eq)]
pub struct TagEntry {
    pub tag: String,
    pub file: String,
}

/// The tags of `es` stand in strictly ascending order.
pub open spec fn ascending(es: Seq<TagEntry>) -> bool {
    forall|i: int, j: int|
        #![trigger es[i], es[j]]
        0 <= i < j < es.len() ==> lex_less(es[i].tag@, es[j].tag@)
}

/// Some entry of `es` has the tag `k`.
pub open spec fn holds(es: Seq<TagEntry>, k: Seq<char>) -> bool {
    exists|i: int| 0 <= i < es.len() && (#[trigger] es[i]).tag@ == k
}

/// The position of an entry of `es` with the tag `k`.
pub open spec fn position(es: Seq<TagEntry>, k: Seq<char>) -> int {
    choose|i: int| 0 <= i < es.len() && (#[trigger] es[i]).tag@ == k
}

/// The mapping from tags to documents that the entries `es` stand for.
pub open spec fn map_of(es: Seq<TagEntry>) -> Map<Seq<char>, Seq<char>> {
    Map::new(|k: Seq<char>| holds(es, k), |k: Seq<char>| es[position(es, k)].file@)
}

/// In an ascending sequence no two entries share a tag.
pub proof fn lemma_ascending_distinct(es: Seq<TagEntry>, i: int, j: int)
    requires
        ascending(es),
        0 <= i < es.len(),
        0 <= j < es.len(),
        es[i].tag@ == es[j].tag@,
    ensures
        i == j,
{
    lemma_lex_irreflexive(es[i].tag@);
    if i < j {
        assert(lex_less(es[i].tag@, es[j].tag@));
    } else if j < i {
        assert(lex_less(es[j].tag@, es[i].tag@));
    }
}

/// The mapping of an ascending sequence sends the tag of each entry to the
/// document of that entry.
pub proof fn lemma_map_of_entry(es: Seq<TagEntry>, i: int)
    requires
        ascending(es),
        0 <= i < es.len(),
    ensures
        map_of(es).contains_key(es[i].tag@),
        map_of(es)[es[i].tag@] == es[i].file@,
{
    let k = es[i].tag@;
    assert(holds(es, k));
    lemma_ascending_distinct(es, i, position(es, k));
}

/// `t` is the key nearest to `q`: the smallest key that does not come before
/// `q`, or the greatest key where every key comes before `q`.
pub open spec fn is_nearest(keys: Set<Seq<char>>, q: Seq<char>, t: Seq<char>) -> bool {
    &&& keys.contains(t)
    &&& if exists|u: Seq<char>| keys.contains(u) && lex_le(q, u) {
        &&& lex_le(q, t)
        &&& forall|u: Seq<char>| keys.contains(u) && lex_le(q, u) ==> lex_le(t, u)
    } else {
        forall|u: Seq<char>| keys.contains(u) ==> lex_le(u, t)
    }
}

/// The key of `keys` nearest to `q`. It is meaningful where `keys` is not
/// empty.
pub open spec fn nearest_tag(keys: Set<Seq<char>>, q: Seq<char>) -> Seq<char> {
    choose|t: Seq<char>| is_nearest(keys, q, t)
}

/// A set of keys has at most one key nearest to `q`.
pub proof fn lemma_nearest_unique(keys: Set<Seq<char>>, q: Seq<char>, t: Seq<char>, u: Seq<char>)
    requires
        is_nearest(keys, q, t),
        is_nearest(keys, q, u),
    ensures
        t == u,
{
    assert(lex_le(t, u) && lex_le(u, t));
    if t != u {
        lemma_lex_asymmetric(t, u);
    }
}

/// A key that is nearest to `q` is the one that `nearest_tag` names.
pub proof fn lemma_nearest_tag_is(keys: Set<Seq<char>>, q: Seq<char>, t: Seq<char>)
    requires
        is_nearest(keys, q, t),
    ensures
        nearest_tag(keys, q) == t,
{
    lemma_nearest_unique(keys, q, t, nearest_tag(keys, q));
}

/// A finite set of keys that is not empty has a least key.
pub proof fn lemma_least_key(keys: Set<Seq<char>>) -> (m: Seq<char>)
    requires
        keys.finite(),
        keys.len() > 0,
    ensures
        keys.contains(m),
        forall|u: Seq<char>| keys.contains(u) ==> lex_le(m, u),
    decreases keys.len(),
{
    let a = keys.choose();
    let rest = keys.remove(a);
    if rest.len() == 0 {
        assert forall|u: Seq<char>| keys.contains(u) implies lex_le(a, u) by {
            if u != a {
                assert(rest.contains(u));
            }
        }
        a
    } else {
        let m = lemma_least_key(rest);
        lemma_lex_total(a, m);
        if lex_less(a, m) {
            assert forall|u: Seq<char>| keys.contains(u) implies lex_le(a, u) by {
                if u != a {
                    assert(rest.contains(u));
                    if m != u {
                        lemma_lex_transitive(a, m, u);
                    }
                }
            }
            a
        } else {
            assert forall|u: Seq<char>| keys.contains(u) implies lex_le(m, u) by {
                if u != a {
                    assert(rest.contains(u));
                }
            }
            m
        }
    }
}

/// A finite set of keys that is not empty has a greatest key.
pub proof fn lemma_greatest_key(keys: Set<Seq<char>>) -> (m: Seq<char>)
    requires
        keys.finite(),
        keys.len() > 0,
    ensures
        keys.contains(m),
        forall|u: Seq<char>| keys.contains(u) ==> lex_le(u, m),
    decreases keys.len(),
{
    let a = keys.choose();
    let rest = keys.remove(a);
    if rest.len() == 0 {
        assert forall|u: Seq<char>| keys.contains(u) implies lex_le(u, a) by {
            if u != a {
                assert(rest.contains(u));
            }
        }
        a
    } else {
        let m = lemma_greatest_key(rest);
        lemma_lex_total(m, a);
        if lex_less(m, a) {
            assert forall|u: Seq<char>| keys.contains(u) implies lex_le(u, a) by {
                if u != a {
                    assert(rest.contains(u));
                    if m != u {
                        lemma_lex_transitive(u, m, a);
                    }
                }
            }
            a
        } else {
            assert forall|u: Seq<char>| keys.contains(u) implies lex_le(u, m) by {
                if u != a {
                    assert(rest.contains(u));
                }
            }
            m
        }
    }
}

/// In a finite set of keys that is not empty, some key is nearest to `q`,
/// and `nearest_tag` names it.
pub proof fn lemma_nearest_exists(keys: Set<Seq<char>>, q: Seq<char>)
    requires
        keys.finite(),
        !keys.is_empty(),
    ensures
        is_nearest(keys, q, nearest_tag(keys, q)),
{
    let after = keys.filter(|u: Seq<char>| lex_le(q, u));
    keys.lemma_len_filter(|u: Seq<char>| lex_le(q, u));
    if exists|u: Seq<char>| keys.contains(u) && lex_le(q, u) {
        let w = choose|u: Seq<char>| keys.contains(u) && lex_le(q, u);
        assert(after.contains(w));
        let t = lemma_least_key(after);
        assert forall|u: Seq<char>| keys.contains(u) && lex_le(q, u) implies lex_le(t, u) by {
            assert(after.contains(u));
        }
        assert(is_nearest(keys, q, t));
    } else {
        assert(keys.len() > 0) by {
            if keys.len() == 0 {
                assert(keys =~= Set::<Seq<char>>::empty());
            }
        }
        let t = lemma_greatest_key(keys);
        assert(is_nearest(keys, q, t));
    }
}

/// A key of the set is its own nearest key.
pub proof fn lemma_nearest_of_present(keys: Set<Seq<char>>, q: Seq<char>)
    requires
        keys.contains(q),
    ensures
        nearest_tag(keys, q) == q,
{
    assert(lex_le(q, q));
    assert(is_nearest(keys, q, q));
    lemma_nearest_tag_is(keys, q, q);
}

/// An ascending sequence of entries stands for a mapping with as many keys
/// as the sequence has entries.
pub proof fn lemma_map_of_len(es: Seq<TagEntry>)
    requires
        ascending(es),
    ensures
        map_of(es).dom().finite(),
        map_of(es).dom().len() == es.len(),
    decreases es.len(),
{
    if es.len() == 0 {
        assert(map_of(es).dom() =~= Set::<Seq<char>>::empty());
    } else {
        let init = es.drop_last();
        let k = es.last().tag@;
        assert forall|i: int, j: int| 0 <= i < j < init.len() implies lex_less(
            init[i].tag@,
            init[j].tag@,
        ) by {
            assert(lex_less(es[i].tag@, es[j].tag@));
        }
        lemma_map_of_len(init);
        if holds(init, k) {
            let i = position(init, k);
            assert(init[i] == es[i]);
            lemma_ascending_distinct(es, i, es.len() - 1);
        }
        assert forall|u: Seq<char>| holds(es, u) <==> (u == k || holds(init, u)) by {
            if holds(es, u) && u != k {
                let i = position(es, u);
                assert(init[i] == es[i]);
            }
            if holds(init, u) {
                let i = position(init, u);
                assert(es[i].tag@ == init[i].tag@);
            }
            if u == k {
                assert(es[es.len() - 1].tag@ == k);
            }
        }
        assert(map_of(es).dom() =~= map_of(init).dom().insert(k));
    }
}

/// The tag table. Its entries are held in the strictly ascending order of
/// their tags, so no tag occurs twice.
#[derive(Debug)]
pub struct TagTable {
    entries: Vec<TagEntry>,
}

impl View for TagTable {
    type V = Map<Seq<char>, Seq<char>>;

    /// The mapping from each tag to its document.
    closed spec fn view(&self) -> Map<Seq<char>, Seq<char>> {
        map_of(self.entries@)
    }
}

impl TagTable {
    /// The entries stand in the strictly ascending order of their tags.
    #[verifier::type_invariant]
    spec fn well_formed(self) -> bool {
        ascending(self.entries@)
    }

    /// The table without entries.
    pub fn new() -> (table: TagTable)
        ensures
            table@ == Map::<Seq<char>, Seq<char>>::empty(),
    {
        let table = TagTable { entries: Vec::new() };
        assert(table@ =~= Map::<Seq<char>, Seq<char>>::empty());
        table
    }

    /// The number of tags in the table.
    pub fn len(&self) -> (n: usize)
        ensures
            self@.dom().finite(),
            n == self@.dom().len(),
    {
        proof {
            use_type_invariant(&*self);
            lemma_map_of_len(self.entries@);
        }
        self.entries.len()
    }

    /// Whether the table has no tag.
    pub fn is_empty(&self) -> (b: bool)
        ensures
            b == self@.dom().is_empty(),
    {
        proof {
            use_type_invariant(&*self);
            lemma_map_of_len(self.entries@);
            if self.entries@.len() == 0 {
                assert(self@.dom() =~= Set::<Seq<char>>::empty());
            }
        }
        self.entries.len() == 0
    }

    /// The entries of the table, in the ascending order of their tags.
    pub fn entries(&self) -> (es: &[TagEntry])
        ensures
            ascending(es@),
            map_of(es@) == self@,
    {
        proof {
            use_type_invariant(&*self);
        }
        self.entries.as_slice()
    }

    /// The number of entries whose tag comes before `tag`, and whether the
    /// entry at that position has the tag `tag`.
    fn lower_bound(&self, tag: &str) -> (r: (usize, bool))
        ensures
            r.0 <= self.entries@.len(),
            forall|i: int| 0 <= i < r.0 ==> lex_less((#[trigger] self.entries@[i]).tag@, tag@),
            r.1 ==> r.0 < self.entries@.len() && self.entries@[r.0 as int].tag@ == tag@,
            forall|i: int|
                r.0 + (if r.1 { 1int } else { 0int }) <= i < self.entries@.len() ==> lex_less(
                    tag@,
                    (#[trigger] self.entries@[i]).tag@,
                ),
    {
        proof {
            use_type_invariant(&*self);
        }
        let mut lo: usize = 0;
        let mut hi: usize = self.entries.len();
        while lo < hi
            invariant
                ascending(self.entries@),
                lo <= hi <= self.entries@.len(),
                forall|i: int| 0 <= i < lo ==> lex_less((#[trigger] self.entries@[i]).tag@, tag@),
                forall|i: int|
                    hi <= i < self.entries@.len() ==> lex_less(
                        tag@,
                        (#[trigger] self.entries@[i]).tag@,
                    ),
            decreases hi - lo,
        {
            let mid: usize = lo + (hi - lo) / 2;
            let ghost es = self.entries@;
            match lex_order(self.entries[mid].tag.as_str(), tag) {
                LexOrder::Less => {
                    assert forall|i: int| 0 <= i < mid + 1 implies lex_less(
                        (#[trigger] es[i]).tag@,
                        tag@,
                    ) by {
                        if i < mid {
                            assert(lex_less(es[i].tag@, es[mid as int].tag@));
                            lemma_lex_transitive(es[i].tag@, es[mid as int].tag@, tag@);
                        }
                    }
                    lo = mid + 1;
                },
                LexOrder::Equal => {
                    assert forall|i: int| 0 <= i < mid implies lex_less(
                        (#[trigger] es[i]).tag@,
                        tag@,
                    ) by {
                        assert(lex_less(es[i].tag@, es[mid as int].tag@));
                    }
                    assert forall|i: int| mid + 1 <= i < es.len() implies lex_less(
                        tag@,
                        (#[trigger] es[i]).tag@,
                    ) by {
                        assert(lex_less(es[mid as int].tag@, es[i].tag@));
                    }
                    return (mid, true);
                },
                LexOrder::Greater => {
                    assert forall|i: int| mid <= i < es.len() implies lex_less(
                        tag@,
                        (#[trigger] es[i]).tag@,
                    ) by {
                        if mid < i {
                            assert(lex_less(es[mid as int].tag@, es[i].tag@));
                            lemma_lex_transitive(tag@, es[mid as int].tag@, es[i].tag@);
                        }
                    }
                    hi = mid;
                },
            }
        }
        (lo, false)
    }

    /// The entry with the tag `tag`, if the table has one.
    pub fn get(&self, tag: &str) -> (found: Option<&TagEntry>)
        ensures
            match found {
                Some(entry) => self@.contains_key(tag@) && entry.tag@ == tag@ && entry.file@
                    == self@[tag@],
                None => !self@.contains_key(tag@),
            },
    {
        proof {
            use_type_invariant(&*self);
        }
        let (at, hit) = self.lower_bound(tag);
        let ghost es = self.entries@;
        if hit {
            proof {
                lemma_map_of_entry(es, at as int);
            }
            Some(&self.entries[at])
        } else {
            proof {
                lemma_lex_irreflexive(tag@);
                if holds(es, tag@) {
                    let i = position(es, tag@);
                    assert(lex_less(es[i].tag@, tag@) || lex_less(tag@, es[i].tag@));
                }
            }
            None
        }
    }

    /// The entry whose tag is nearest to `tag`: the first entry whose tag
    /// does not come before `tag`, or the last entry where every tag comes
    /// before `tag`. An empty table has none.
    pub fn nearest(&self, tag: &str) -> (found: Option<&TagEntry>)
        ensures
            match found {
                Some(entry) => is_nearest(self@.dom(), tag@, entry.tag@) && entry.file@
                    == self@[entry.tag@],
                None => self@.dom().is_empty(),
            },
    {
        proof {
            use_type_invariant(&*self);
        }
        let n: usize = self.entries.len();
        let ghost es = self.entries@;
        if n == 0 {
            assert(self@.dom() =~= Set::<Seq<char>>::empty());
            return None;
        }
        let (at, hit) = self.lower_bound(tag);
        let pick: usize = if at < n { at } else { n - 1 };
        let entry = &self.entries[pick];
        proof {
            let keys = self@.dom();
            let q = tag@;
            let t = entry.tag@;
            lemma_map_of_entry(es, pick as int);
            lemma_lex_irreflexive(q);
            if at < n {
                assert(lex_le(q, t));
                assert forall|u: Seq<char>| keys.contains(u) && lex_le(q, u) implies lex_le(
                    t,
                    u,
                ) by {
                    let i = position(es, u);
                    if i < at {
                        assert(lex_less(es[i].tag@, q));
                        if q != u {
                            lemma_lex_asymmetric(q, u);
                        }
                    } else if i > at {
                        assert(lex_less(es[at as int].tag@, es[i].tag@));
                    }
                }
            } else {
                assert forall|u: Seq<char>| keys.contains(u) implies !lex_le(q, u) && lex_le(
                    u,
                    t,
                ) by {
                    let i = position(es, u);
                    assert(lex_less(es[i].tag@, q));
                    lemma_lex_asymmetric(u, q);
                    if i < pick {
                        assert(lex_less(es[i].tag@, es[pick as int].tag@));
                    }
                }
            }
        }
        Some(entry)
    }

    /// Enters `file` as the document of `tag`, in place of the document that
    /// `tag` had, if any.
    pub fn insert(&mut self, tag: String, file: String)
        ensures
            final(self)@ == old(self)@.insert(tag@, file@),
    {
        proof {
            use_type_invariant(&*self);
        }
        let (at, hit) = self.lower_bound(tag.as_str());
        let ghost es = self.entries@;
        let ghost k = tag@;
        let ghost f = file@;
        let mut entries: Vec<TagEntry> = Vec::new();
        std::mem::swap(&mut entries, &mut self.entries);
        if hit {
            entries.set(at, TagEntry { tag, file });
        } else {
            entries.insert(at, TagEntry { tag, file });
        }
        proof {
            let ns = entries@;
            lemma_lex_irreflexive(k);
            if hit {
                assert forall|i: int, j: int| 0 <= i < j < ns.len() implies lex_less(
                    ns[i].tag@,
                    ns[j].tag@,
                ) by {
                    assert(lex_less(es[i].tag@, es[j].tag@));
                }
            } else {
                es.insert_ensures(at as int, ns[at as int]);
                assert forall|i: int, j: int| 0 <= i < j < ns.len() implies lex_less(
                    ns[i].tag@,
                    ns[j].tag@,
                ) by {
                    let oi = if i < at { i } else { i - 1 };
                    let oj = if j < at { j } else { j - 1 };
                    if i != at && j != at {
                        assert(ns[i] == es[oi] && ns[j] == es[oj]);
                        assert(lex_less(es[oi].tag@, es[oj].tag@));
                    } else if i == at {
                        assert(ns[j] == es[oj]);
                    } else {
                        assert(ns[i] == es[oi]);
                    }
                }
            }
            assert(ascending(ns));
            assert forall|u: Seq<char>| holds(ns, u) <==> (u == k || holds(es, u)) by {
                if holds(ns, u) && u != k {
                    let i = position(ns, u);
                    let oi = if hit || i < at { i } else { i - 1 };
                    assert(es[oi] == ns[i]);
                }
                if holds(es, u) {
                    let i = position(es, u);
                    let ni = if hit || i < at { i } else { i + 1 };
                    assert(ns[ni].tag@ == es[i].tag@);
                }
                if u == k {
                    assert(ns[at as int].tag@ == k);
                }
            }
            assert forall|u: Seq<char>| holds(ns, u) implies #[trigger] map_of(ns)[u] == map_of(
                es,
            ).insert(k, f)[u] by {
                if u == k {
                    lemma_map_of_entry(ns, at as int);
                } else {
                    let i = position(es, u);
                    let ni = if hit || i < at { i } else { i + 1 };
                    assert(ns[ni] == es[i]);
                    lemma_map_of_entry(es, i);
                    lemma_map_of_entry(ns, ni);
                }
            }
            assert(map_of(ns) =~= map_of(es).insert(k, f));
        }
        self.entries = entries;
    }
}

} // verus!
