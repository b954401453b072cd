//! The manifest of an ontology: its name, identity and rings.

use vstd::prelude::*;

use crate::text::{clone_texts, opt_text, texts};

verus! {

/// The `[meta]` table of the manifest.
#[derive(Debug, Clone)]
pub struct Meta {
    pub name: String,
    pub description: String,
    /// Base IRI for term identity.
    pub base_iri: Option<String>,
    /// Namespace of the metamodel vocabulary.
    pub vocab_iri: Option<String>,
}

/// What the `[meta]` table says.
pub struct MetaModel {
    pub name: Seq<char>,
    pub description: Seq<char>,
    pub base_iri: Option<Seq<char>>,
    pub vocab_iri: Option<Seq<char>>,
}

impl View for Meta {
    type V = MetaModel;

    open spec fn view(&self) -> MetaModel {
        MetaModel {
            name: self.name@,
            description: self.description@,
            base_iri: opt_text(self.base_iri),
            vocab_iri: opt_text(self.vocab_iri),
        }
    }
}

/// A scoping ring.
#[derive(Debug, Clone)]
pub struct Ring {
    pub level: u32,
    pub name: String,
    pub description: String,
    pub terms: Vec<String>,
}

/// What a ring says.
pub struct RingModel {
    pub level: u32,
    pub name: Seq<char>,
    pub description: Seq<char>,
    pub terms: Seq<Seq<char>>,
}

impl View for Ring {
    type V = RingModel;

    open spec fn view(&self) -> RingModel {
        RingModel {
            level: self.level,
            name: self.name@,
            description: self.description@,
            terms: texts(self.terms@),
        }
    }
}

/// What a list of rings says.
pub open spec fn rings_of(rings: Seq<Ring>) -> Seq<RingModel> {
    Seq::new(rings.len(), |i: int| rings[i]@)
}

/// A finding that was reviewed and accepted: an `[[audit.waiver]]` table.
#[derive(Debug, Clone, PartialEq, Eq)]
pub struct Waiver {
    /// The node the finding is about.
    pub term: String,
    /// The check that raises it.
    pub check: String,
    /// Narrows the waiver to findings whose message names this source.
    pub source: Option<String>,
    /// Why the finding was accepted.
    pub reason: String,
    /// When.
    pub decided_on: String,
}

/// What a waiver says.
pub struct WaiverModel {
    pub term: Seq<char>,
    pub check: Seq<char>,
    pub source: Option<Seq<char>>,
    pub reason: Seq<char>,
    pub decided_on: Seq<char>,
}

impl View for Waiver {
    type V = WaiverModel;

    open spec fn view(&self) -> WaiverModel {
        WaiverModel {
            term: self.term@,
            check: self.check@,
            source: opt_text(self.source),
            reason: self.reason@,
            decided_on: self.decided_on@,
        }
    }
}

/// What a list of waivers says.
pub open spec fn waivers_of(list: Seq<Waiver>) -> Seq<WaiverModel> {
    Seq::new(list.len(), |i: int| list[i]@)
}

/// The manifest of an ontology.
#[derive(Debug, Clone)]
pub struct Config {
    pub meta: Meta,
    pub rings: Vec<Ring>,
}

/// What a manifest says.
pub struct ConfigModel {
    pub meta: MetaModel,
    pub rings: Seq<RingModel>,
}

impl View for Config {
    type V = ConfigModel;

    open spec fn view(&self) -> ConfigModel {
        ConfigModel { meta: self.meta@, rings: rings_of(self.rings@) }
    }
}

/// A list of rings with one more put before those of a higher level at its
/// end.
pub open spec fn insert_ring(list: Seq<RingModel>, r: RingModel) -> Seq<RingModel>
    decreases list.len(),
{
    if list.len() > 0 && r.level < list.last().level {
        insert_ring(list.drop_last(), r).push(list.last())
    } else {
        list.push(r)
    }
}

/// The rings in the order of their levels.
pub open spec fn by_level(rings: Seq<RingModel>) -> Seq<RingModel>
    decreases rings.len(),
{
    if rings.len() == 0 {
        Seq::empty()
    } else {
        insert_ring(by_level(rings.drop_last()), rings.last())
    }
}

/// The ring of a level: the first one given.
pub open spec fn ring_at(rings: Seq<RingModel>, level: u32) -> Option<RingModel>
    decreases rings.len(),
{
    if rings.len() == 0 {
        None
    } else if rings[0].level == level {
        Some(rings[0])
    } else {
        ring_at(rings.skip(1), level)
    }
}

/// A copy of a ring.
fn clone_ring(r: &Ring) -> (c: Ring)
    ensures
        c@ == r@,
{
    Ring {
        level: r.level,
        name: r.name.clone(),
        description: r.description.clone(),
        terms: clone_texts(&r.terms),
    }
}

fn put_ring(list: &mut Vec<Ring>, r: Ring)
    ensures
        rings_of(final(list)@) == insert_ring(rings_of(old(list)@), r@),
{
    let ghost all = rings_of(list@);
    let mut p: usize = list.len();
    assert(all.take(p as int) == all);
    assert(insert_ring(all, r@) + all.skip(p as int) =~= insert_ring(all, r@));
    while p > 0 && r.level < list[p - 1].level
        invariant
            all == rings_of(list@),
            p <= list@.len(),
            insert_ring(all, r@) == insert_ring(all.take(p as int), r@) + all.skip(p as int),
        decreases p,
    {
        let ghost part = all.take(p as int);
        assert(part.drop_last() == all.take(p - 1));
        assert(insert_ring(all.take(p - 1), r@).push(part.last()) + all.skip(p as int)
            =~= insert_ring(all.take(p - 1), r@) + all.skip(p - 1));
        p = p - 1;
    }
    let ghost part = all.take(p as int);
    assert(p > 0 ==> part.last() == list@[p - 1]@);
    assert(insert_ring(part, r@) == part.push(r@));
    list.insert(p, r);
    assert(rings_of(list@) =~= part.push(r@) + all.skip(p as int));
}

impl Config {
    /// The rings in the order of their levels.
    pub fn rings_sorted(&self) -> (r: Vec<Ring>)
        ensures
            rings_of(r@) == by_level(self@.rings),
    {
        let ghost all = rings_of(self.rings@);
        let mut r: Vec<Ring> = Vec::new();
        assert(rings_of(r@) =~= by_level(all.take(0)));
        for i in 0..self.rings.len()
            invariant
                all == rings_of(self.rings@),
                rings_of(r@) == by_level(all.take(i as int)),
        {
            assert(all.take(i + 1).drop_last() == all.take(i as int));
            assert(all.take(i + 1).last() == self.rings@[i as int]@);
            put_ring(&mut r, clone_ring(&self.rings[i]));
        }
        assert(all.take(self.rings@.len() as int) == all);
        r
    }

    /// The ring of a level: the first one given.
    pub fn get_ring(&self, level: u32) -> (r: Option<&Ring>)
        ensures
            (match r {
                Some(ring) => Some(ring@),
                None => None,
            }) == ring_at(self@.rings, level),
    {
        let ghost all = rings_of(self.rings@);
        assert(all.skip(0) == all);
        for i in 0..self.rings.len()
            invariant
                all == rings_of(self.rings@),
                ring_at(all, level) == ring_at(all.skip(i as int), level),
        {
            assert(all.skip(i as int)[0] == self.rings@[i as int]@);
            assert(all.skip(i as int).skip(1) == all.skip(i + 1));
            if self.rings[i].level == level {
                return Some(&self.rings[i]);
            }
        }
        assert(all.skip(self.rings@.len() as int) =~= Seq::<RingModel>::empty());
        None
    }
}

proof fn lemma_insert_ring(list: Seq<RingModel>, r: RingModel)
    requires
        level_ordered(list),
    ensures
        level_ordered(insert_ring(list, r)),
        forall|x: RingModel| #[trigger]
            insert_ring(list, r).contains(x) <==> (list.contains(x) || x == r),
    decreases list.len(),
{
    let all = insert_ring(list, r);
    if list.len() > 0 && r.level < list.last().level {
        let front = list.drop_last();
        assert(level_ordered(front));
        lemma_insert_ring(front, r);
        let inner = insert_ring(front, r);
        assert forall|x: RingModel| #[trigger] all.contains(x) <==> (list.contains(x) || x == r) by {
            crate::order::lemma_contains_last(all, x);
            crate::order::lemma_contains_last(list, x);
            assert(all.drop_last() =~= inner);
            assert(inner.contains(x) <==> (front.contains(x) || x == r));
        }
        assert forall|i: int, j: int| 0 <= i < j < all.len() implies (#[trigger] all[i]).level <= (
        #[trigger] all[j]).level by {
            if j == all.len() - 1 {
                assert(inner.contains(inner[i]));
                if inner[i] != r {
                    let k = choose|k: int| 0 <= k < front.len() && front[k] == inner[i];
                    assert(list[k].level <= list[list.len() - 1].level);
                }
            } else {
                assert(all[i] == inner[i] && all[j] == inner[j]);
            }
        }
    } else {
        assert forall|x: RingModel| #[trigger] all.contains(x) <==> (list.contains(x) || x == r) by {
            crate::order::lemma_contains_last(all, x);
            assert(all.drop_last() =~= list);
        }
        assert forall|i: int, j: int| 0 <= i < j < all.len() implies (#[trigger] all[i]).level <= (
        #[trigger] all[j]).level by {
            if j == all.len() - 1 {
                assert(list[i].level <= list[list.len() - 1].level);
            } else {
                assert(all[i] == list[i] && all[j] == list[j]);
            }
        }
    }
}

/// No ring is of a lower level than one before it.
pub open spec fn level_ordered(list: Seq<RingModel>) -> bool {
    forall|i: int, j: int|
        0 <= i <= j < list.len() ==> (#[trigger] list[i]).level <= (#[trigger] list[j]).level
}

/// Ordering the rings puts lower levels first and keeps just the rings.
pub proof fn rings_stand_by_level(rings: Seq<RingModel>)
    ensures
        level_ordered(by_level(rings)),
        forall|x: RingModel| #[trigger] by_level(rings).contains(x) <==> rings.contains(x),
    decreases rings.len(),
{
    if rings.len() > 0 {
        let front = by_level(rings.drop_last());
        rings_stand_by_level(rings.drop_last());
        lemma_insert_ring(front, rings.last());
        assert forall|x: RingModel| #[trigger]
            by_level(rings).contains(x) <==> rings.contains(x) by {
            crate::order::lemma_contains_last(rings, x);
            assert(front.contains(x) <==> rings.drop_last().contains(x));
        }
    }
}

/// Ordering the rings keeps the order of those of one level.
pub proof fn rings_of_a_level_keep_their_order(rings: Seq<RingModel>, level: u32)
    ensures
        by_level(rings).filter(|r: RingModel| r.level == level) == rings.filter(
            |r: RingModel| r.level == level,
        ),
    decreases rings.len(),
{
    reveal(Seq::filter);
    if rings.len() > 0 {
        let front = rings.drop_last();
        rings_of_a_level_keep_their_order(front, level);
        rings_stand_by_level(front);
        lemma_insert_filter(by_level(front), rings.last(), level);
    }
}

proof fn lemma_insert_filter(list: Seq<RingModel>, r: RingModel, level: u32)
    requires
        level_ordered(list),
    ensures
        insert_ring(list, r).filter(|x: RingModel| x.level == level) == (if r.level == level {
            list.filter(|x: RingModel| x.level == level).push(r)
        } else {
            list.filter(|x: RingModel| x.level == level)
        }),
    decreases list.len(),
{
    reveal(Seq::filter);
    let all = insert_ring(list, r);
    let front = list.drop_last();
    if list.len() > 0 && r.level < list.last().level {
        assert forall|i: int, j: int| 0 <= i <= j < front.len() implies (
        #[trigger] front[i]).level <= (#[trigger] front[j]).level by {
            assert(front[i] == list[i] && front[j] == list[j]);
        }
        lemma_insert_filter(front, r, level);
        assert(all.drop_last() =~= insert_ring(front, r));
        assert(all.last() == list.last());
    } else {
        assert(all.drop_last() =~= list);
    }
}

}
