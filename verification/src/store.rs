//! The database of records: an append-only aggregate with clear, snapshot
//! and case-insensitive multi-term search.

use crate::page::json_accepts;
use crate::page::lemma_no_null_version;
use crate::page::null_sentinel;
use crate::page::page_candidates;
use crate::page::page_records;
use crate::page::parse_page;
use crate::page::PAGE_SLOTS;
use crate::record::crate_matches;
use crate::record::Crate;
use crate::record::CrateView;
use crate::text::lower_of;
use crate::text::to_lower;
use vstd::prelude::*;
use vstd::seq_lib::*;

verus! {

/// Pages 1 through `PAGE_COUNT` inclusive are fetched on every rebuild.
pub const PAGE_COUNT: usize = 299;

/// Fetch attempts allowed per page before a rebuild aborts.
pub const MAX_NET_TRY: usize = 10;

/// What the fetch layer hands over for one page: the response body of the
/// first successful attempt, or the mark that every attempt failed.
pub enum PageFetch {
    Body(String),
    Failed,
}

/// Why a rebuild aborted. Both name the 1-based page that caused it.
#[derive(Debug)]
pub enum UpdateError {
    /// Every fetch attempt for the page failed.
    NetworkExhausted { page: usize },
    /// The page's body is not well-formed JSON.
    MalformedResponse { page: usize },
}

/// The page was fetched and its body is well-formed JSON.
pub open spec fn page_ok(p: PageFetch) -> bool {
    &&& p is Body
    &&& json_accepts(p->Body_0@)
}

/// The records of a sequence of fetched pages, page by page in order; a
/// failed page contributes nothing.
pub open spec fn fetched_records(pages: Seq<PageFetch>) -> Seq<CrateView>
    decreases pages.len(),
{
    if pages.len() == 0 {
        Seq::empty()
    } else {
        fetched_records(pages.drop_last()) + (if pages.last() is Body {
            page_records(pages.last()->Body_0@)
        } else {
            Seq::empty()
        })
    }
}

/// Every record a completed rebuild stores carries a real version: the
/// null sentinel never reaches the collection.
pub proof fn lemma_fetched_records_versioned(pages: Seq<PageFetch>)
    ensures
        forall|k: int|
            0 <= k < fetched_records(pages).len() ==> (#[trigger] fetched_records(
                pages,
            )[k]).version != null_sentinel(),
    decreases pages.len(),
{
    if pages.len() > 0 {
        lemma_fetched_records_versioned(pages.drop_last());
        let prefix = fetched_records(pages.drop_last());
        let tail = if pages.last() is Body {
            page_records(pages.last()->Body_0@)
        } else {
            Seq::<CrateView>::empty()
        };
        if pages.last() is Body {
            lemma_no_null_version(page_candidates(pages.last()->Body_0@, PAGE_SLOTS as int));
        }
        assert forall|k: int| 0 <= k < fetched_records(pages).len() implies (
        #[trigger] fetched_records(pages)[k]).version != null_sentinel() by {
            if k < prefix.len() {
                assert(fetched_records(pages)[k] == prefix[k]);
            } else {
                assert(fetched_records(pages)[k] == tail[k - prefix.len()]);
            }
        }
    }
}

/// The collection that a sequence of pushes leaves behind, first to
/// last.
pub open spec fn pushed_all(init: Seq<CrateView>, recs: Seq<CrateView>) -> Seq<CrateView>
    decreases recs.len(),
{
    if recs.len() == 0 {
        init
    } else {
        pushed_all(init, recs.drop_last()).push(recs.last())
    }
}

/// Starting from the cleared collection, a cycle ends with exactly its
/// own pushes: no record of an earlier cycle can reappear.
pub proof fn lemma_clear_forgets(pushed: Seq<CrateView>)
    ensures
        pushed_all(Seq::<CrateView>::empty(), pushed) == pushed,
    decreases pushed.len(),
{
    if pushed.len() == 0 {
        assert(pushed_all(Seq::<CrateView>::empty(), pushed) =~= pushed);
    } else {
        lemma_clear_forgets(pushed.drop_last());
        assert(pushed_all(Seq::<CrateView>::empty(), pushed) =~= pushed);
    }
}

/// However concurrent pushes of a batch happen to serialize, the cleared
/// collection ends with exactly that batch: the same size, every record
/// present, none lost and none duplicated.
pub proof fn lemma_pushes_lose_nothing(recs: Seq<CrateView>, ord: Seq<CrateView>)
    requires
        ord.to_multiset() == recs.to_multiset(),
    ensures
        pushed_all(Seq::<CrateView>::empty(), ord).to_multiset() == recs.to_multiset(),
        pushed_all(Seq::<CrateView>::empty(), ord).len() == recs.len(),
{
    lemma_clear_forgets(ord);
    ord.to_multiset_ensures();
    recs.to_multiset_ensures();
}

/// The bounded retry budget for fetching one page.
pub struct RetryBudget {
    pub failures: usize,
}

impl RetryBudget {
    /// A fresh budget: no attempt has failed yet.
    pub fn new() -> (r: RetryBudget)
        ensures
            r.failures == 0,
    {
        RetryBudget { failures: 0 }
    }

    /// Record one failed attempt. True exactly when the cap is reached
    /// and the whole rebuild must abort.
    pub fn record_failure(&mut self) -> (abort: bool)
        requires
            old(self).failures < MAX_NET_TRY,
        ensures
            final (self).failures == old(self).failures + 1,
            abort == (final (self).failures == MAX_NET_TRY),
    {
        self.failures = self.failures + 1;
        self.failures == MAX_NET_TRY
    }
}

/// The views of a sequence of records.
pub open spec fn views_of(cs: Seq<Crate>) -> Seq<CrateView> {
    cs.map_values(|c: Crate| c@)
}

/// The lower-case forms of a sequence of needle strings.
pub open spec fn lowered_views(needles: Seq<String>) -> Seq<Seq<char>> {
    needles.map_values(|s: String| lower_of(s@))
}

/// The subsequence of `crates` whose records match every lower-cased
/// needle, in collection order.
pub open spec fn search_spec(crates: Seq<CrateView>, needles: Seq<String>) -> Seq<CrateView>
    decreases crates.len(),
{
    if crates.len() == 0 {
        Seq::empty()
    } else {
        let rest = search_spec(crates.drop_last(), needles);
        if crate_matches(crates.last(), lowered_views(needles)) {
            rest.push(crates.last())
        } else {
            rest
        }
    }
}

proof fn lemma_push_contains<A>(s: Seq<A>, x: A, c: A)
    ensures
        s.push(x).contains(c) <==> (s.contains(c) || c == x),
{
    if s.push(x).contains(c) {
        let i = choose|i: int| 0 <= i < s.push(x).len() && s.push(x)[i] == c;
        if i < s.len() {
            assert(s[i] == c);
        }
    }
    if s.contains(c) {
        let i = choose|i: int| 0 <= i < s.len() && s[i] == c;
        assert(s.push(x)[i] == c);
    }
    if c == x {
        assert(s.push(x)[s.len() as int] == c);
    }
}

/// What search returns, described without the recursion: a record view is
/// in the result exactly when it is in the collection and matches every
/// lower-cased needle.
pub proof fn lemma_search_describes(crates: Seq<CrateView>, needles: Seq<String>)
    ensures
        forall|c: CrateView|
            #[trigger] search_spec(crates, needles).contains(c) <==> (crates.contains(c)
                && crate_matches(c, lowered_views(needles))),
    decreases crates.len(),
{
    if crates.len() == 0 {
        assert forall|c: CrateView| !search_spec(crates, needles).contains(c) by {
            assert(search_spec(crates, needles) == Seq::<CrateView>::empty());
        }
        assert forall|c: CrateView| !crates.contains(c) by {}
    } else {
        let rest = crates.drop_last();
        let last = crates.last();
        lemma_search_describes(rest, needles);
        assert forall|c: CrateView|
            #[trigger] search_spec(crates, needles).contains(c) <==> (crates.contains(c)
                && crate_matches(c, lowered_views(needles))) by {
            lemma_push_contains(rest, last, c);
            lemma_push_contains(
                search_spec(rest, needles),
                last,
                c,
            );
            assert(rest.push(last) =~= crates);
        }
    }
}

/// With no needles at all, search keeps the whole collection: the
/// conjunction over zero terms holds of every record.
pub proof fn lemma_search_no_needles(crates: Seq<CrateView>, needles: Seq<String>)
    requires
        needles.len() == 0,
    ensures
        search_spec(crates, needles) == crates,
    decreases crates.len(),
{
    if crates.len() == 0 {
        assert(search_spec(crates, needles) =~= crates);
    } else {
        lemma_search_no_needles(crates.drop_last(), needles);
        assert(crate_matches(crates.last(), lowered_views(needles)));
        assert(crates.drop_last().push(crates.last()) =~= crates);
    }
}

/// The snapshot database: every record that the current rebuild has
/// aggregated, plus the user-maintained blacklist of names.
pub struct Database {
    pub crates: Vec<Crate>,
    pub blacklist: Vec<String>,
}

impl View for Database {
    type V = Seq<CrateView>;

    open spec fn view(&self) -> Seq<CrateView> {
        views_of(self.crates@)
    }
}

impl Default for Database {
    fn default() -> (d: Database)
        ensures
            d@ == Seq::<CrateView>::empty(),
            d.blacklist@ == Seq::<String>::empty(),
    {
        let d = Database { crates: Vec::new(), blacklist: Vec::new() };
        proof {
            assert(d@ =~= Seq::<CrateView>::empty());
        }
        d
    }
}

impl Database {
    /// Empty the record collection; the blacklist is untouched.
    pub fn clear(&mut self)
        ensures
            final (self)@ == Seq::<CrateView>::empty(),
            final (self).blacklist == old(self).blacklist,
    {
        self.crates.clear();
        proof {
            assert(self@ =~= Seq::<CrateView>::empty());
        }
    }

    /// Append one record; nothing else changes.
    pub fn push(&mut self, c: Crate)
        ensures
            final (self)@ == old(self)@.push(c@),
            final (self).blacklist == old(self).blacklist,
    {
        let ghost prev = self.crates@;
        self.crates.push(c);
        proof {
            assert(views_of(prev.push(c)) =~= views_of(prev).push(c@));
        }
    }

    /// Append every record of `recs`, in order; nothing else changes.
    pub fn push_all(&mut self, recs: Vec<Crate>)
        ensures
            final (self)@ == old(self)@ + views_of(recs@),
            final (self).blacklist == old(self).blacklist,
    {
        let n = recs.len();
        let mut i: usize = 0;
        while i < n
            invariant
                n == recs@.len(),
                0 <= i <= n,
                self@ == old(self)@ + views_of(recs@.take(i as int)),
                self.blacklist == old(self).blacklist,
            decreases n - i,
        {
            self.push(recs[i].clone());
            proof {
                assert(views_of(recs@.take(i + 1)) =~= views_of(recs@.take(i as int)).push(
                    recs@[i as int]@,
                ));
                assert(old(self)@ + views_of(recs@.take(i + 1)) =~= (old(self)@ + views_of(
                    recs@.take(i as int),
                )).push(recs@[i as int]@));
            }
            i = i + 1;
        }
        proof {
            assert(recs@.take(n as int) =~= recs@);
        }
    }

    /// Rebuild the whole collection from the fetched pages: clear it,
    /// then parse and append each page's records in order, `pages[i]`
    /// standing for page `i + 1`. The first page whose fetch was
    /// exhausted or whose body is not well-formed JSON aborts the whole
    /// rebuild; what was pushed before the abort is left behind and must
    /// not be taken for a complete snapshot.
    pub fn update(&mut self, pages: &Vec<PageFetch>) -> (r: Result<(), UpdateError>)
        ensures
            final (self).blacklist == old(self).blacklist,
            r is Ok <==> (forall|i: int| 0 <= i < pages@.len() ==> page_ok(#[trigger] pages@[i])),
            r is Ok ==> final (self)@ == fetched_records(pages@),
            (r matches Err(UpdateError::NetworkExhausted { page }) ==> {
                &&& 1 <= page <= pages@.len()
                &&& pages@[page - 1] is Failed
                &&& forall|j: int| 0 <= j < page - 1 ==> page_ok(#[trigger] pages@[j])
            }),
            (r matches Err(UpdateError::MalformedResponse { page }) ==> {
                &&& 1 <= page <= pages@.len()
                &&& pages@[page - 1] is Body
                &&& !json_accepts(pages@[page - 1]->Body_0@)
                &&& forall|j: int| 0 <= j < page - 1 ==> page_ok(#[trigger] pages@[j])
            }),
    {
        self.clear();
        let n = pages.len();
        let mut i: usize = 0;
        while i < n
            invariant
                n == pages@.len(),
                0 <= i <= n,
                self.blacklist == old(self).blacklist,
                self@ == fetched_records(pages@.take(i as int)),
                forall|j: int| 0 <= j < i ==> page_ok(#[trigger] pages@[j]),
            decreases n - i,
        {
            let ghost prefix = pages@.take(i as int);
            let ghost next = pages@.take(i + 1);
            proof {
                assert(next.drop_last() =~= prefix);
                assert(next.last() == pages@[i as int]);
            }
            match &pages[i] {
                PageFetch::Failed => {
                    return Err(UpdateError::NetworkExhausted { page: i + 1 });
                },
                PageFetch::Body(body) => {
                    match parse_page(body.as_str()) {
                        None => {
                            return Err(UpdateError::MalformedResponse { page: i + 1 });
                        },
                        Some(recs) => {
                            self.push_all(recs);
                        },
                    }
                },
            }
            i = i + 1;
        }
        proof {
            assert(pages@.take(n as int) =~= pages@);
        }
        Ok(())
    }

    /// A consistent copy of every record currently held.
    pub fn snapshot(&self) -> (r: Vec<Crate>)
        ensures
            views_of(r@) == self@,
    {
        let n = self.crates.len();
        let mut out: Vec<Crate> = Vec::new();
        let mut i: usize = 0;
        while i < n
            invariant
                n == self.crates@.len(),
                0 <= i <= n,
                views_of(out@) == views_of(self.crates@.take(i as int)),
            decreases n - i,
        {
            let ghost prev_out = out@;
            out.push(self.crates[i].clone());
            proof {
                assert(views_of(out@) =~= views_of(prev_out).push(self.crates@[i as int]@));
                assert(self.crates@.take(i + 1) =~= self.crates@.take(i as int).push(
                    self.crates@[i as int],
                ));
                assert(views_of(self.crates@.take(i as int).push(self.crates@[i as int])) =~= views_of(
                    self.crates@.take(i as int),
                ).push(self.crates@[i as int]@));
            }
            i = i + 1;
        }
        proof {
            assert(self.crates@.take(n as int) =~= self.crates@);
        }
        out
    }

    /// Case-insensitive multi-term AND search: every record that contains
    /// each lower-cased needle in its name or description, in order. The
    /// collection itself is untouched.
    pub fn search(&self, needles: &[String]) -> (r: Vec<Crate>)
        ensures
            views_of(r@) == search_spec(self@, needles@),
    {
        let nn = needles.len();
        let mut lowered: Vec<String> = Vec::new();
        let mut j: usize = 0;
        while j < nn
            invariant
                nn == needles@.len(),
                0 <= j <= nn,
                lowered@.len() == j,
                forall|k: int| 0 <= k < j ==> (#[trigger] lowered@[k])@ == lower_of(needles@[k]@),
            decreases nn - j,
        {
            lowered.push(to_lower(needles[j].as_str()));
            j = j + 1;
        }
        proof {
            assert(lowered@.map_values(|s: String| s@) =~= lowered_views(needles@));
        }
        let n = self.crates.len();
        let mut out: Vec<Crate> = Vec::new();
        let mut i: usize = 0;
        while i < n
            invariant
                n == self.crates@.len(),
                0 <= i <= n,
                lowered@.map_values(|s: String| s@) == lowered_views(needles@),
                views_of(out@) == search_spec(views_of(self.crates@.take(i as int)), needles@),
            decreases n - i,
        {
            let ghost prefix = views_of(self.crates@.take(i as int));
            let ghost next = views_of(self.crates@.take(i + 1));
            proof {
                assert(next.drop_last() =~= prefix);
                assert(next.last() == self.crates@[i as int]@);
                assert(next.len() == i + 1);
            }
            if self.crates[i].contains(lowered.as_slice()) {
                out.push(self.crates[i].clone());
                proof {
                    assert(views_of(out@) =~= search_spec(prefix, needles@).push(
                        self.crates@[i as int]@,
                    ));
                }
            }
            i = i + 1;
        }
        proof {
            assert(self.crates@.take(n as int) =~= self.crates@);
        }
        out
    }
}

} // verus!
