//! The quotes of a term on a page and where each was found.

use vstd::prelude::*;
use vstd::string::*;

use crate::commands::source_check::quotes::{quote_standing, standing, Standing};
use crate::commands::sources::{
    add_pins, all_sources, SourceModel, SourceRef, TermModel, TermSources, UNCHECKED,
};
use crate::text::{add_all_new, lemma_push_text, lemma_take_next, same, texts};

verus! {

/// Where one quote was found.
#[derive(Debug, Clone, PartialEq, Eq)]
pub enum Status {
    /// On the live page, word for word.
    Present,
    /// On the live page, but drifted.
    Moved,
    /// Not on the live page, but in this pinned snapshot.
    Archived(String),
    /// On the live page but drifted, and this pinned snapshot carries it
    /// verbatim. Distinct from `Archived`, which asks for a pin to be written
    /// for a passage the live page has lost.
    Pinned(String),
    /// Nowhere yet.
    Missing,
}

/// Where one quote was found.
pub enum StatusModel {
    Present,
    Moved,
    Archived(Seq<char>),
    Pinned(Seq<char>),
    Missing,
}

impl View for Status {
    type V = StatusModel;

    open spec fn view(&self) -> StatusModel {
        match self {
            Status::Present => StatusModel::Present,
            Status::Moved => StatusModel::Moved,
            Status::Archived(pin) => StatusModel::Archived(pin@),
            Status::Pinned(pin) => StatusModel::Pinned(pin@),
            Status::Missing => StatusModel::Missing,
        }
    }
}

/// One quote of a term on a page and where it was found.
#[derive(Debug, Clone)]
pub struct Verdict {
    pub quote: String,
    pub status: Status,
}

/// One quote and where it was found.
pub struct VerdictModel {
    pub quote: Seq<char>,
    pub status: StatusModel,
}

impl View for Verdict {
    type V = VerdictModel;

    open spec fn view(&self) -> VerdictModel {
        VerdictModel { quote: self.quote@, status: self.status@ }
    }
}

/// What a list of verdicts is.
pub open spec fn verdicts_of(list: Seq<Verdict>) -> Seq<VerdictModel> {
    Seq::new(list.len(), |i: int| list[i]@)
}

/// The status of a quote by its standing on the live page.
pub open spec fn status_of(s: Standing) -> StatusModel {
    match s {
        Standing::Present => StatusModel::Present,
        Standing::Moved => StatusModel::Moved,
        Standing::Missing => StatusModel::Missing,
    }
}

/// Each quote against the live page.
pub open spec fn verified(page: Seq<char>, quotes: Seq<Seq<char>>) -> Seq<VerdictModel> {
    Seq::new(
        quotes.len(),
        |i: int| VerdictModel { quote: quotes[i], status: status_of(standing(page, quotes[i])) },
    )
}

/// Each quote against the live page.
pub fn verify(page: &str, quotes: &Vec<String>) -> (r: Vec<Verdict>)
    ensures
        verdicts_of(r@) == verified(page@, texts(quotes@)),
{
    let ghost all = verified(page@, texts(quotes@));
    let mut r: Vec<Verdict> = Vec::new();
    assert(verdicts_of(r@) =~= all.take(0));
    for i in 0..quotes.len()
        invariant
            all == verified(page@, texts(quotes@)),
            verdicts_of(r@) == all.take(i as int),
    {
        let ghost before = r@;
        let status = match quote_standing(page, quotes[i].as_str()) {
            Standing::Present => Status::Present,
            Standing::Moved => Status::Moved,
            Standing::Missing => Status::Missing,
        };
        r.push(Verdict { quote: quotes[i].clone(), status });
        proof {
            lemma_take_next(all, i as int);
            assert(verdicts_of(r@) =~= verdicts_of(before).push(r@[i as int]@));
        }
    }
    assert(all.take(quotes@.len() as int) == all);
    r
}

/// A verdict after a snapshot: a quote still missing that the snapshot carries
/// is archived there.
pub open spec fn covered_verdict(v: VerdictModel, page: Seq<char>, pin: Seq<char>) -> VerdictModel {
    if v.status == StatusModel::Missing && standing(page, v.quote) != Standing::Missing {
        VerdictModel { quote: v.quote, status: StatusModel::Archived(pin) }
    } else {
        v
    }
}

/// Verdicts after a snapshot.
pub open spec fn covered(
    verdicts: Seq<VerdictModel>,
    page: Seq<char>,
    pin: Seq<char>,
) -> Seq<VerdictModel> {
    Seq::new(verdicts.len(), |i: int| covered_verdict(verdicts[i], page, pin))
}

/// Mark every quote still missing that the snapshot `pin` carries.
pub fn cover(verdicts: &mut Vec<Verdict>, archived: &str, pin: &str)
    ensures
        verdicts_of(final(verdicts)@) == covered(verdicts_of(old(verdicts)@), archived@, pin@),
{
    let ghost start = verdicts_of(verdicts@);
    let n: usize = verdicts.len();
    for i in 0..n
        invariant
            n == verdicts@.len(),
            start.len() == n,
            forall|k: int|
                0 <= k < i ==> (#[trigger] verdicts@[k])@ == covered_verdict(
                    start[k],
                    archived@,
                    pin@,
                ),
            forall|k: int| i <= k < n ==> (#[trigger] verdicts@[k])@ == start[k],
    {
        let missing = match verdicts[i].status {
            Status::Missing => true,
            _ => false,
        };
        if missing {
            match quote_standing(archived, verdicts[i].quote.as_str()) {
                Standing::Missing => {},
                _ => {
                    let quote = verdicts[i].quote.clone();
                    verdicts.set(i, Verdict { quote, status: Status::Archived(pin.to_string()) });
                },
            }
        }
    }
    assert(verdicts_of(verdicts@) =~= covered(start, archived@, pin@));
}

/// The quotes that were found nowhere yet.
pub open spec fn lost(verdicts: Seq<VerdictModel>) -> Seq<Seq<char>>
    decreases verdicts.len(),
{
    if verdicts.len() == 0 {
        Seq::empty()
    } else if verdicts.last().status == StatusModel::Missing {
        lost(verdicts.drop_last()).push(verdicts.last().quote)
    } else {
        lost(verdicts.drop_last())
    }
}

/// The quotes that were found nowhere yet.
pub fn still_missing(verdicts: &Vec<Verdict>) -> (r: Vec<String>)
    ensures
        texts(r@) == lost(verdicts_of(verdicts@)),
{
    let ghost all = verdicts_of(verdicts@);
    let mut r: Vec<String> = Vec::new();
    assert(texts(r@) =~= lost(all.take(0)));
    for i in 0..verdicts.len()
        invariant
            all == verdicts_of(verdicts@),
            texts(r@) == lost(all.take(i as int)),
    {
        assert(all.take(i + 1).drop_last() == all.take(i as int));
        assert(all.take(i + 1).last() == verdicts@[i as int]@);
        if let Status::Missing = verdicts[i].status {
            proof {
                lemma_push_text(r@, verdicts@[i as int].quote);
            }
            r.push(verdicts[i].quote.clone());
        }
    }
    assert(all.take(verdicts@.len() as int) == all);
    r
}

/// The quotes that the live page has drifted from.
pub open spec fn drifted(verdicts: Seq<VerdictModel>) -> Seq<Seq<char>>
    decreases verdicts.len(),
{
    if verdicts.len() == 0 {
        Seq::empty()
    } else if verdicts.last().status == StatusModel::Moved {
        drifted(verdicts.drop_last()).push(verdicts.last().quote)
    } else {
        drifted(verdicts.drop_last())
    }
}

/// The quotes that the live page has drifted from.
pub fn drifted_quotes(verdicts: &Vec<Verdict>) -> (r: Vec<String>)
    ensures
        texts(r@) == drifted(verdicts_of(verdicts@)),
{
    let ghost all = verdicts_of(verdicts@);
    let mut r: Vec<String> = Vec::new();
    assert(texts(r@) =~= drifted(all.take(0)));
    for i in 0..verdicts.len()
        invariant
            all == verdicts_of(verdicts@),
            texts(r@) == drifted(all.take(i as int)),
    {
        assert(all.take(i + 1).drop_last() == all.take(i as int));
        assert(all.take(i + 1).last() == verdicts@[i as int]@);
        if let Status::Moved = verdicts[i].status {
            proof {
                lemma_push_text(r@, verdicts@[i as int].quote);
            }
            r.push(verdicts[i].quote.clone());
        }
    }
    assert(all.take(verdicts@.len() as int) == all);
    r
}

/// How bad a status is: `missing` over `moved` over `archived` over `present`.
pub open spec fn rank(s: StatusModel) -> int {
    match s {
        StatusModel::Missing => 4,
        StatusModel::Moved => 3,
        StatusModel::Archived(_) => 2,
        StatusModel::Pinned(_) => 2,
        StatusModel::Present => 1,
    }
}

/// The worst rank among verdicts; 0 when there are none.
pub open spec fn worst_rank(verdicts: Seq<VerdictModel>) -> int
    decreases verdicts.len(),
{
    if verdicts.len() == 0 {
        0
    } else {
        let front = worst_rank(verdicts.drop_last());
        let last = rank(verdicts.last().status);
        if last > front {
            last
        } else {
            front
        }
    }
}

/// The word for a rank.
pub open spec fn rank_word(n: int) -> Seq<char> {
    if n == 4 {
        "missing"@
    } else if n == 3 {
        "moved"@
    } else if n == 2 {
        "archived"@
    } else if n == 1 {
        "present"@
    } else {
        UNCHECKED@
    }
}

/// The status word recorded for a term: its worst quote, `missing` over
/// `moved` over `archived` over `present`; no quotes leaves it `unchecked`.
pub open spec fn word_of(verdicts: Seq<VerdictModel>) -> Seq<char> {
    rank_word(worst_rank(verdicts))
}

/// The status word recorded for a term: its worst quote, `missing` over
/// `moved` over `archived` over `present`; no quotes leaves it `unchecked`.
pub fn worst_word(verdicts: &Vec<Verdict>) -> (r: String)
    ensures
        r@ == word_of(verdicts_of(verdicts@)),
{
    let ghost all = verdicts_of(verdicts@);
    let mut worst: u8 = 0;
    assert(all.take(0) =~= Seq::<VerdictModel>::empty());
    for i in 0..verdicts.len()
        invariant
            all == verdicts_of(verdicts@),
            worst == worst_rank(all.take(i as int)),
    {
        assert(all.take(i + 1).drop_last() == all.take(i as int));
        assert(all.take(i + 1).last() == verdicts@[i as int]@);
        let n: u8 = match verdicts[i].status {
            Status::Missing => 4,
            Status::Moved => 3,
            Status::Archived(_) => 2,
            Status::Pinned(_) => 2,
            Status::Present => 1,
        };
        if n > worst {
            worst = n;
        }
    }
    assert(all.take(verdicts@.len() as int) == all);
    if worst == 4 {
        "missing".to_string()
    } else if worst == 3 {
        "moved".to_string()
    } else if worst == 2 {
        "archived".to_string()
    } else if worst == 1 {
        "present".to_string()
    } else {
        UNCHECKED.to_string()
    }
}

/// No verdict is worse than the word that is recorded, and some verdict is as
/// bad: the recorded word tells of the worst quote.
pub proof fn the_word_tells_of_the_worst_quote(verdicts: Seq<VerdictModel>)
    ensures
        forall|i: int|
            0 <= i < verdicts.len() ==> rank((#[trigger] verdicts[i]).status) <= worst_rank(
                verdicts,
            ),
        verdicts.len() > 0 ==> exists|i: int|
            0 <= i < verdicts.len() && rank((#[trigger] verdicts[i]).status) == worst_rank(
                verdicts,
            ),
        word_of(verdicts) == rank_word(worst_rank(verdicts)),
    decreases verdicts.len(),
{
    if verdicts.len() > 0 {
        let front = verdicts.drop_last();
        the_word_tells_of_the_worst_quote(front);
        assert forall|i: int| 0 <= i < verdicts.len() implies rank(
            (#[trigger] verdicts[i]).status,
        ) <= worst_rank(verdicts) by {
            if i < front.len() {
                assert(front[i] == verdicts[i]);
            }
        }
        if worst_rank(verdicts) == rank(verdicts.last().status) {
            assert(verdicts[verdicts.len() - 1] == verdicts.last());
        } else {
            assert(front.len() > 0);
            let i = choose|i: int|
                0 <= i < front.len() && rank((#[trigger] front[i]).status) == worst_rank(front);
            assert(verdicts[i] == front[i]);
        }
    }
}

// ---------------------------------------------------------------------------
// The quotes and pins of a term
// ---------------------------------------------------------------------------

/// The passages quoted from a page in a list of sources.
pub open spec fn quotes_in(refs: Seq<SourceModel>, url: Seq<char>) -> Seq<Seq<char>>
    decreases refs.len(),
{
    if refs.len() == 0 {
        Seq::empty()
    } else if refs.last().url == url {
        quotes_in(refs.drop_last(), url) + refs.last().quotes
    } else {
        quotes_in(refs.drop_last(), url)
    }
}

/// The passages that a term quotes from a page, in document order.
pub open spec fn quotes_of(all: Seq<TermModel>, term: Seq<char>, url: Seq<char>) -> Seq<Seq<char>>
    decreases all.len(),
{
    if all.len() == 0 {
        Seq::empty()
    } else if all.last().term == term {
        quotes_of(all.drop_last(), term, url) + quotes_in(all.last().sources, url)
    } else {
        quotes_of(all.drop_last(), term, url)
    }
}

/// The pins written on a term's own anchors of a page, each once, in document
/// order.
pub open spec fn own_pins(all: Seq<TermModel>, term: Seq<char>, url: Seq<char>) -> Seq<Seq<char>>
    decreases all.len(),
{
    if all.len() == 0 {
        Seq::empty()
    } else if all.last().term == term {
        add_pins(own_pins(all.drop_last(), term, url), all.last().sources, url)
    } else {
        own_pins(all.drop_last(), term, url)
    }
}

fn push_all(list: &mut Vec<String>, more: &Vec<String>)
    ensures
        texts(final(list)@) == texts(old(list)@) + texts(more@),
{
    let ghost start = texts(list@);
    let ghost all = texts(more@);
    assert(start + all.take(0) =~= start);
    for i in 0..more.len()
        invariant
            all == texts(more@),
            texts(list@) == start + all.take(i as int),
    {
        proof {
            lemma_push_text(list@, more@[i as int]);
            lemma_take_next(all, i as int);
            assert((start + all.take(i as int)).push(all[i as int]) =~= start + all.take(i + 1));
        }
        list.push(more[i].clone());
    }
    assert(all.take(more@.len() as int) == all);
}

fn quotes_from(refs: &Vec<SourceRef>, url: &str, list: &mut Vec<String>)
    ensures
        texts(final(list)@) == texts(old(list)@) + quotes_in(
            crate::commands::sources::sources_of(refs@),
            url@,
        ),
{
    let ghost start = texts(list@);
    let ghost all = crate::commands::sources::sources_of(refs@);
    assert(start + quotes_in(all.take(0), url@) =~= start);
    for i in 0..refs.len()
        invariant
            all == crate::commands::sources::sources_of(refs@),
            texts(list@) == start + quotes_in(all.take(i as int), url@),
    {
        assert(all.take(i + 1).drop_last() == all.take(i as int));
        assert(all.take(i + 1).last() == refs@[i as int]@);
        if same(refs[i].url.as_str(), url) {
            push_all(list, &refs[i].quotes);
            assert(texts(list@) =~= start + (quotes_in(all.take(i as int), url@) + texts(
                refs@[i as int].quotes@,
            )));
        }
    }
    assert(all.take(refs@.len() as int) == all);
}

/// The passages that a term quotes from a page, in document order.
pub fn quotes_for(all: &Vec<TermSources>, term: &str, url: &str) -> (r: Vec<String>)
    ensures
        texts(r@) == quotes_of(all_sources(all@), term@, url@),
{
    let ghost every = all_sources(all@);
    let mut r: Vec<String> = Vec::new();
    assert(texts(r@) =~= quotes_of(every.take(0), term@, url@));
    for i in 0..all.len()
        invariant
            every == all_sources(all@),
            texts(r@) == quotes_of(every.take(i as int), term@, url@),
    {
        assert(every.take(i + 1).drop_last() == every.take(i as int));
        assert(every.take(i + 1).last() == all@[i as int]@);
        if same(all[i].term.as_str(), term) {
            quotes_from(&all[i].sources, url, &mut r);
        }
    }
    assert(every.take(all@.len() as int) == every);
    r
}

fn pins_from(refs: &Vec<SourceRef>, url: &str, list: &mut Vec<String>)
    ensures
        texts(final(list)@) == add_pins(
            texts(old(list)@),
            crate::commands::sources::sources_of(refs@),
            url@,
        ),
{
    let ghost start = texts(list@);
    let ghost all = crate::commands::sources::sources_of(refs@);
    assert(add_pins(start, all.take(0), url@) == start);
    for i in 0..refs.len()
        invariant
            all == crate::commands::sources::sources_of(refs@),
            texts(list@) == add_pins(start, all.take(i as int), url@),
    {
        assert(all.take(i + 1).drop_last() == all.take(i as int));
        assert(all.take(i + 1).last() == refs@[i as int]@);
        if same(refs[i].url.as_str(), url) {
            add_all_new(list, &refs[i].archives);
        }
    }
    assert(all.take(refs@.len() as int) == all);
}

/// The pins written on a term's own anchors of `url`, in document order.
pub fn pins_for(all: &Vec<TermSources>, term: &str, url: &str) -> (r: Vec<String>)
    ensures
        texts(r@) == own_pins(all_sources(all@), term@, url@),
{
    let ghost every = all_sources(all@);
    let mut r: Vec<String> = Vec::new();
    assert(texts(r@) =~= own_pins(every.take(0), term@, url@));
    for i in 0..all.len()
        invariant
            every == all_sources(all@),
            texts(r@) == own_pins(every.take(i as int), term@, url@),
    {
        assert(every.take(i + 1).drop_last() == every.take(i as int));
        assert(every.take(i + 1).last() == all@[i as int]@);
        if same(all[i].term.as_str(), term) {
            pins_from(&all[i].sources, url, &mut r);
        }
    }
    assert(every.take(all@.len() as int) == every);
    r
}

/// A list followed by those of another that it does not hold; `own` comes
/// first and its entries are not repeated.
pub open spec fn known_pins(own: Seq<Seq<char>>, archives: Seq<Seq<char>>) -> Seq<Seq<char>> {
    own + others(own, archives)
}

/// The pins of a list that are not a node's own.
pub open spec fn others(own: Seq<Seq<char>>, archives: Seq<Seq<char>>) -> Seq<Seq<char>>
    decreases archives.len(),
{
    if archives.len() == 0 {
        Seq::empty()
    } else if own.contains(archives.last()) {
        others(own, archives.drop_last())
    } else {
        others(own, archives.drop_last()).push(archives.last())
    }
}

/// A node's own pins, then the URL's other pins.
pub fn pins_known(own: &Vec<String>, archives: &Vec<String>) -> (r: Vec<String>)
    ensures
        texts(r@) == known_pins(texts(own@), texts(archives@)),
{
    let ghost mine = texts(own@);
    let ghost all = texts(archives@);
    let mut r = crate::text::clone_texts(own);
    assert(mine + others(mine, all.take(0)) =~= mine);
    for i in 0..archives.len()
        invariant
            mine == texts(own@),
            all == texts(archives@),
            texts(r@) == mine + others(mine, all.take(i as int)),
    {
        assert(all.take(i + 1).drop_last() == all.take(i as int));
        assert(all.take(i + 1).last() == archives@[i as int]@);
        if !crate::text::contains_text(own, archives[i].as_str()) {
            proof {
                lemma_push_text(r@, archives@[i as int]);
                assert((mine + others(mine, all.take(i as int))).push(all[i as int]) =~= mine
                    + others(mine, all.take(i as int)).push(all[i as int]));
            }
            r.push(archives[i].clone());
        }
    }
    assert(all.take(archives@.len() as int) == all);
    r
}

}
