use vstd::prelude::*;
use vstd::string::{StrSliceExecFns, StringExecFns};
use std::collections::VecDeque;
use vstd::hash_map::StringHashMap;

use crate::html::{extract_links, hrefs_of};
use crate::ledger::Response;
use crate::urls::{Parsed, ParsedView, parse_of, join_of, parse_url, join_url};

verus! {

/// What became of one URL handed to [`Crawler::queue`], in the order the
/// exclusion policy decides: the first matching case wins.
#[derive(Debug, Clone, Copy, PartialEq, Eq, Structural)]
pub enum Admission {
    /// The cap on distinct URLs is reached; nothing changes.
    LimitReached,
    /// The URL is already in the ledger; its reference count was incremented.
    Duplicate,
    /// An absolute URL on a foreign domain while domain restriction is on.
    OffDomain,
    /// The URL is neither absolute nor a relative reference.
    Malformed,
    /// A new URL: one ledger record created, one frontier entry appended.
    Admitted,
}

/// The mathematical state of a crawl: the configuration, the frontier of
/// URLs awaiting a fetch, the ledger of records, and the ledger keys in
/// first-sighting order.
#[verifier::ext_equal]
pub ghost struct Model {
    pub base_text: Seq<char>,
    pub base_domain: Option<Seq<char>>,
    pub restrict_on_domain: bool,
    pub limit: u32,
    pub pending: Seq<Seq<char>>,
    pub responses: Map<Seq<char>, Response>,
    pub order: Seq<Seq<char>>,
}

/// The canonical form of a raw link: a root-relative reference is resolved
/// against the base (falling back to plain concatenation where resolution
/// fails); anything else is returned unchanged.
pub open spec fn norm_spec(base: Seq<char>, raw: Seq<char>) -> Seq<char> {
    if raw.len() > 0 && raw[0] == '/' {
        match join_of(base, raw) {
            Some(j) => j,
            None => base + raw,
        }
    } else {
        raw
    }
}

/// The exclusion policy's decision on a canonical URL, first match wins:
/// the cap, then duplication, then the parse-based domain check.
pub open spec fn spec_decide(m: Model, url: Seq<char>) -> Admission {
    if m.limit > 0 && m.responses.dom().len() >= m.limit {
        Admission::LimitReached
    } else if m.responses.contains_key(url) {
        Admission::Duplicate
    } else {
        match parse_of(url) {
            ParsedView::Absolute { domain, .. } => {
                if m.restrict_on_domain && domain != m.base_domain {
                    Admission::OffDomain
                } else {
                    Admission::Admitted
                }
            },
            ParsedView::Relative => Admission::Admitted,
            ParsedView::Malformed => Admission::Malformed,
        }
    }
}

/// One more sighting of an already-present record: the count rises by one,
/// staying put at the top of its range.
pub open spec fn spec_bump(r: Response) -> Response {
    if r.count < u32::MAX {
        Response { count: (r.count + 1) as u32, status: r.status }
    } else {
        r
    }
}

/// The state after one URL is handed to [`Crawler::queue`].
pub open spec fn spec_queue(m: Model, raw: Seq<char>) -> Model {
    let u = norm_spec(m.base_text, raw);
    match spec_decide(m, u) {
        Admission::Duplicate => Model {
            responses: m.responses.insert(u, spec_bump(m.responses[u])),
            ..m
        },
        Admission::Admitted => Model {
            responses: m.responses.insert(u, Response { count: 1, status: 0 }),
            pending: m.pending.push(u),
            order: m.order.push(u),
            ..m
        },
        _ => m,
    }
}

/// The state after each URL of `raws` is handed to [`Crawler::queue`] in turn.
pub open spec fn spec_queue_all(m: Model, raws: Seq<Seq<char>>) -> Model
    decreases raws.len(),
{
    if raws.len() == 0 {
        m
    } else {
        spec_queue_all(spec_queue(m, raws[0]), raws.drop_first())
    }
}

/// The state after the status of a fetched URL is recorded: an existing
/// record keeps its count; a fresh one (a redirect target never admitted
/// through the policy) starts at count 1. The frontier is untouched.
pub open spec fn spec_record(m: Model, url: Seq<char>, status: u16) -> Model {
    if m.responses.contains_key(url) {
        Model {
            responses: m.responses.insert(
                url,
                Response { count: m.responses[url].count, status },
            ),
            ..m
        }
    } else {
        Model {
            responses: m.responses.insert(url, Response { count: 1, status }),
            order: m.order.push(url),
            ..m
        }
    }
}

/// The view of an optional domain name.
pub open spec fn opt_view(o: Option<String>) -> Option<Seq<char>> {
    match o {
        Some(s) => Some(s@),
        None => None,
    }
}

/// Whether two optional domain names are equal.
fn opt_str_eq(a: &Option<String>, b: &Option<String>) -> (r: bool)
    ensures
        r == (opt_view(*a) == opt_view(*b)),
{
    match a {
        Some(x) => match b {
            Some(y) => *x == *y,
            None => false,
        },
        None => match b {
            Some(_) => false,
            None => true,
        },
    }
}

/// Appending a key absent from `m` to a sequence of keys of `m` keeps the
/// sequence duplicate-free, and every element of the longer sequence is a
/// key once the new key is inserted.
proof fn lemma_push_fresh_key(m: Map<Seq<char>, Response>, s: Seq<Seq<char>>, u: Seq<char>, v: Response)
    requires
        s.no_duplicates(),
        forall|i: int| 0 <= i < s.len() ==> m.contains_key(#[trigger] s[i]),
        !m.contains_key(u),
    ensures
        s.push(u).no_duplicates(),
        forall|i: int|
            0 <= i < s.push(u).len() ==> m.insert(u, v).contains_key(#[trigger] s.push(u)[i]),
{
    assert forall|i: int| 0 <= i < s.push(u).len() implies m.insert(u, v).contains_key(
        #[trigger] s.push(u)[i],
    ) by {
        if i < s.len() {
            assert(s.push(u)[i] == s[i]);
        } else {
            assert(s.push(u)[i] == u);
        }
    }
}

/// A key sequence that covers every key of `m` covers, once the fresh key
/// is appended, every key of `m` with that key inserted.
proof fn lemma_push_covers(m: Map<Seq<char>, Response>, s: Seq<Seq<char>>, u: Seq<char>, v: Response)
    requires
        forall|k: Seq<char>| m.contains_key(k) ==> #[trigger] s.contains(k),
    ensures
        forall|k: Seq<char>| m.insert(u, v).contains_key(k) ==> #[trigger] s.push(u).contains(k),
{
    assert forall|k: Seq<char>| m.insert(u, v).contains_key(k) implies #[trigger] s.push(u).contains(
        k,
    ) by {
        if k == u {
            assert(s.push(u)[s.len() as int] == u);
        } else {
            assert(m.contains_key(k));
            assert(s.contains(k));
            let i = choose|i: int| 0 <= i < s.len() && s[i] == k;
            assert(s.push(u)[i] == k);
        }
        assert(s.push(u).contains(k));
    }
}

/// Queueing the URLs of a sequence and then one more is queueing the longer
/// sequence.
proof fn lemma_queue_all_snoc(m: Model, s: Seq<Seq<char>>, x: Seq<char>)
    ensures
        spec_queue_all(m, s.push(x)) == spec_queue(spec_queue_all(m, s), x),
    decreases s.len(),
{
    if s.len() == 0 {
        assert(s.push(x)[0] == x);
        assert(s.push(x).drop_first() =~= Seq::<Seq<char>>::empty());
        assert(spec_queue_all(m, s.push(x)) == spec_queue_all(
            spec_queue(m, x),
            Seq::<Seq<char>>::empty(),
        ));
        assert(spec_queue_all(spec_queue(m, x), Seq::<Seq<char>>::empty()) == spec_queue(m, x));
        assert(spec_queue_all(m, s) == m);
    } else {
        assert(s.push(x)[0] == s[0]);
        assert(s.push(x).drop_first() =~= s.drop_first().push(x));
        lemma_queue_all_snoc(spec_queue(m, s[0]), s.drop_first(), x);
        assert(spec_queue_all(m, s.push(x)) == spec_queue_all(
            spec_queue(m, s[0]),
            s.drop_first().push(x),
        ));
        assert(spec_queue_all(m, s) == spec_queue_all(spec_queue(m, s[0]), s.drop_first()));
    }
}

/// The crawl state: configuration, frontier and ledger, mutated only
/// through [`Crawler::queue`], [`Crawler::on_response`] and
/// [`Crawler::pop_front`].
pub struct Crawler {
    base_text: String,
    base_domain: Option<String>,
    restrict_on_domain: bool,
    limit: u32,
    pending: VecDeque<String>,
    responses: StringHashMap<Response>,
    order: Vec<String>,
}

impl View for Crawler {
    type V = Model;

    closed spec fn view(&self) -> Model {
        Model {
            base_text: self.base_text@,
            base_domain: opt_view(self.base_domain),
            restrict_on_domain: self.restrict_on_domain,
            limit: self.limit,
            pending: self.pending.deep_view(),
            responses: self.responses@,
            order: self.order.deep_view(),
        }
    }
}

impl Crawler {
    /// The internal invariant: the base is an absolute URL's serialization
    /// (never starting with `/`), the ledger is finite, the frontier holds
    /// each URL at most once and only URLs the ledger knows, and `order`
    /// enumerates the ledger's keys exactly once each, in sighting order.
    pub open spec fn wf(self) -> bool {
        &&& self@.base_text.len() > 0
        &&& self@.base_text[0] != '/'
        &&& self@.responses.dom().finite()
        &&& self@.pending.no_duplicates()
        &&& forall|i: int|
            0 <= i < self@.pending.len() ==> self@.responses.contains_key(
                #[trigger] self@.pending[i],
            )
        &&& self@.order.no_duplicates()
        &&& forall|i: int|
            0 <= i < self@.order.len() ==> self@.responses.contains_key(#[trigger] self@.order[i])
        &&& forall|k: Seq<char>|
            self@.responses.contains_key(k) ==> #[trigger] self@.order.contains(k)
    }

    /// Resolve a raw link into its canonical form. The second clause is the
    /// normalization idempotence law: normalizing a canonical URL again
    /// changes nothing.
    pub fn format_url(&self, url: &str) -> (r: String)
        requires
            self.wf(),
        ensures
            r@ == norm_spec(self@.base_text, url@),
            norm_spec(self@.base_text, r@) == r@,
    {
        if !url.is_empty() && url.get_char(0) == '/' {
            match join_url(self.base_text.as_str(), url) {
                Some(j) => j,
                None => {
                    let mut s = self.base_text.clone();
                    s.append(url);
                    s
                },
            }
        } else {
            url.to_owned()
        }
    }

    /// Hand one raw link to the exclusion policy and, where it is admitted,
    /// to the ledger and the frontier, atomically: a new URL enters both or
    /// neither, a duplicate only has its count incremented, everything else
    /// leaves the state unchanged. Returns what was decided.
    pub fn queue(&mut self, raw: &str) -> (r: Admission)
        requires
            old(self).wf(),
        ensures
            final(self).wf(),
            final(self)@ == spec_queue(old(self)@, raw@),
            r == spec_decide(old(self)@, norm_spec(old(self)@.base_text, raw@)),
    {
        let ghost m0 = self@;
        let url = self.format_url(raw);
        let ghost u = url@;

        if self.limit > 0 && self.responses.len() >= self.limit as usize {
            proof {
                assert(self@ =~= spec_queue(m0, raw@));
            }
            return Admission::LimitReached;
        }

        let existing: Option<Response> = match self.responses.get(url.as_str()) {
            Some(entry) => Some(*entry),
            None => None,
        };

        if let Some(found) = existing {
            let mut nr = found;
            if nr.count < u32::MAX {
                nr.increment();
            }
            self.responses.insert(url, nr);
            proof {
                assert(nr == spec_bump(m0.responses[u]));
                assert(self@ =~= spec_queue(m0, raw@));
                assert(self@.responses.dom() =~= m0.responses.dom());
            }
            return Admission::Duplicate;
        }

        match parse_url(url.as_str()) {
            Parsed::Absolute { domain, .. } => {
                if self.restrict_on_domain && !opt_str_eq(&domain, &self.base_domain) {
                    proof {
                        assert(self@ =~= spec_queue(m0, raw@));
                    }
                    return Admission::OffDomain;
                }
            },
            Parsed::Relative => {},
            Parsed::Malformed => {
                proof {
                    assert(self@ =~= spec_queue(m0, raw@));
                }
                return Admission::Malformed;
            },
        }

        self.responses.insert(url.clone(), Response::new(0, 1));
        self.pending.push_back(url.clone());
        self.order.push(url);
        proof {
            assert(self@.pending =~= m0.pending.push(u));
            assert(self@.order =~= m0.order.push(u));
            assert(self@ =~= spec_queue(m0, raw@));
            lemma_push_fresh_key(m0.responses, m0.pending, u, Response { count: 1, status: 0 });
            lemma_push_fresh_key(m0.responses, m0.order, u, Response { count: 1, status: 0 });
            lemma_push_covers(m0.responses, m0.order, u, Response { count: 1, status: 0 });
        }
        Admission::Admitted
    }

    /// Start a crawl from a seed URL: the seed must parse as an absolute
    /// URL (`None` exactly when it does not), and its path is queued as the
    /// first frontier entry.
    pub fn new(entrypoint: &str, restrict_on_domain: bool, limit: u32) -> (r: Option<Crawler>)
        ensures
            r is Some <==> parse_of(entrypoint@) is Absolute,
            r matches Some(c) ==> c.wf() && (parse_of(entrypoint@) matches ParsedView::Absolute {
                text,
                domain,
                path,
            } && c@ == spec_queue(
                Model {
                    base_text: text,
                    base_domain: domain,
                    restrict_on_domain,
                    limit,
                    pending: Seq::empty(),
                    responses: Map::empty(),
                    order: Seq::empty(),
                },
                path,
            )),
    {
        match parse_url(entrypoint) {
            Parsed::Absolute { text, domain, path } => {
                let mut c = Crawler {
                    base_text: text,
                    base_domain: domain,
                    restrict_on_domain,
                    limit,
                    pending: VecDeque::new(),
                    responses: StringHashMap::new(),
                    order: Vec::new(),
                };
                proof {
                    assert(c@.pending =~= Seq::<Seq<char>>::empty());
                    assert(c@.order =~= Seq::<Seq<char>>::empty());
                    assert(c.wf());
                }
                c.queue(path.as_str());
                Some(c)
            },
            _ => None,
        }
    }

    /// Remove and return the frontier's front entry, or `None` on an empty
    /// frontier; the ledger is untouched either way.
    pub fn pop_front(&mut self) -> (r: Option<String>)
        requires
            old(self).wf(),
        ensures
            final(self).wf(),
            match r {
                Some(u) => old(self)@.pending.len() > 0 && u@ == old(self)@.pending[0]
                    && final(self)@ == (Model {
                    pending: old(self)@.pending.drop_first(),
                    ..old(self)@
                }),
                None => old(self)@.pending.len() == 0 && final(self)@ == old(self)@,
            },
    {
        let ghost m0 = self@;
        let r = self.pending.pop_front();
        proof {
            if m0.pending.len() > 0 {
                assert(self@.pending =~= m0.pending.drop_first());
                assert(self@ =~= (Model { pending: m0.pending.drop_first(), ..m0 }));
            } else {
                assert(self@ =~= m0);
            }
        }
        r
    }

    /// Record the outcome of a fetch: queue every link extracted from the
    /// body, then set the final URL's status — keeping its count where its
    /// record exists, and opening a fresh record (count 1, no frontier
    /// entry) where it does not, as happens to a redirect target.
    pub fn on_response(&mut self, final_url: &str, status: u16, body: &str)
        requires
            old(self).wf(),
        ensures
            final(self).wf(),
            final(self)@ == spec_record(
                spec_queue_all(old(self)@, hrefs_of(body@)),
                final_url@,
                status,
            ),
    {
        let links = extract_links(body);
        let ghost m0 = self@;
        let ghost dv = links.deep_view();
        let mut i: usize = 0;
        while i < links.len()
            invariant
                self.wf(),
                i <= links.len(),
                dv == links.deep_view(),
                dv == hrefs_of(body@),
                self@ == spec_queue_all(m0, dv.take(i as int)),
            decreases links.len() - i,
        {
            self.queue(links[i].as_str());
            proof {
                assert(dv[i as int] == links[i as int]@);
                lemma_queue_all_snoc(m0, dv.take(i as int), dv[i as int]);
                assert(dv.take(i as int).push(dv[i as int]) =~= dv.take(i + 1 as int));
            }
            i = i + 1;
        }
        proof {
            assert(dv.take(links.len() as int) =~= dv);
        }

        let ghost m1 = self@;
        let existing: Option<Response> = match self.responses.get(final_url) {
            Some(entry) => Some(*entry),
            None => None,
        };
        match existing {
            Some(found) => {
                self.responses.insert(final_url.to_owned(), Response::new(status, found.count));
                proof {
                    assert(self@ =~= spec_record(m1, final_url@, status));
                    assert(self@.responses.dom() =~= m1.responses.dom());
                }
            },
            None => {
                self.responses.insert(final_url.to_owned(), Response::new(status, 1));
                self.order.push(final_url.to_owned());
                proof {
                    assert(self@.order =~= m1.order.push(final_url@));
                    assert(self@ =~= spec_record(m1, final_url@, status));
                    lemma_push_fresh_key(
                        m1.responses,
                        m1.order,
                        final_url@,
                        Response { count: 1, status },
                    );
                    lemma_push_covers(
                        m1.responses,
                        m1.order,
                        final_url@,
                        Response { count: 1, status },
                    );
                    assert forall|j: int| 0 <= j < self@.pending.len() implies self@.responses.contains_key(
                        #[trigger] self@.pending[j],
                    ) by {
                        assert(m1.responses.contains_key(m1.pending[j]));
                    }
                }
            },
        }
    }

    /// The number of URLs awaiting a fetch.
    pub fn pending_len(&self) -> (n: usize)
        ensures
            n == self@.pending.len(),
    {
        self.pending.len()
    }

    /// The number of records in the ledger.
    pub fn ledger_len(&self) -> (n: usize)
        ensures
            n == self@.responses.dom().len(),
    {
        self.responses.len()
    }

    /// The record for a URL, or `None` where the ledger has none.
    pub fn record(&self, url: &str) -> (r: Option<Response>)
        ensures
            match r {
                Some(rec) => self@.responses.contains_key(url@) && rec == self@.responses[url@],
                None => !self@.responses.contains_key(url@),
            },
    {
        match self.responses.get(url) {
            Some(entry) => Some(*entry),
            None => None,
        }
    }

    /// The ledger's keys in first-sighting order, for reporting after the
    /// crawl: together with [`Crawler::record`] this is the full dump.
    pub fn keys(&self) -> (r: &Vec<String>)
        ensures
            r.deep_view() == self@.order,
    {
        &self.order
    }
}

} // verus!
