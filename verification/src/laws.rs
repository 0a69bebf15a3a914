use vstd::prelude::*;
use vstd::set_lib::lemma_len_subset;

use crate::crawler::{Admission, Crawler, Model, norm_spec, spec_decide, spec_queue, spec_queue_all};
use crate::ledger::Response;
use crate::urls::ParsedView;
use crate::urls::parse_of;

verus! {

/// Dedup law, duplicate half: while the crawl is unbounded or the ledger is
/// under its cap, presenting a URL that the ledger already holds any number
/// of further times changes nothing but that one record's count, which
/// rises once per presentation.
pub proof fn lemma_dedup_present(m: Model, raws: Seq<Seq<char>>, u: Seq<char>)
    requires
        m.limit == 0 || (m.responses.dom().finite() && m.responses.dom().len() < m.limit),
        m.responses.contains_key(u),
        m.responses[u].count + raws.len() <= u32::MAX,
    ensures
        (forall|i: int| 0 <= i < raws.len() ==> norm_spec(m.base_text, #[trigger] raws[i]) == u)
            ==> spec_queue_all(m, raws) == (Model {
            responses: m.responses.insert(
                u,
                Response {
                    count: (m.responses[u].count + raws.len()) as u32,
                    status: m.responses[u].status,
                },
            ),
            ..m
        }),
    decreases raws.len(),
{
    if forall|i: int| 0 <= i < raws.len() ==> norm_spec(m.base_text, #[trigger] raws[i]) == u {
        if raws.len() == 0 {
            assert(m.responses.insert(u, m.responses[u]) =~= m.responses);
            assert(spec_queue_all(m, raws) =~= (Model {
                responses: m.responses.insert(u, m.responses[u]),
                ..m
            }));
        } else {
            let m1 = spec_queue(m, raws[0]);
            assert(norm_spec(m.base_text, raws[0]) == u);
            assert(spec_decide(m, u) == Admission::Duplicate);
            assert(m1.responses.dom() =~= m.responses.dom());
            lemma_dedup_present(m1, raws.drop_first(), u);
            assert(forall|i: int|
                0 <= i < raws.drop_first().len() ==> norm_spec(
                    m1.base_text,
                    #[trigger] raws.drop_first()[i],
                ) == u);
            assert(m1.responses.insert(
                u,
                Response {
                    count: (m1.responses[u].count + raws.drop_first().len()) as u32,
                    status: m1.responses[u].status,
                },
            ) =~= m.responses.insert(
                u,
                Response {
                    count: (m.responses[u].count + raws.len()) as u32,
                    status: m.responses[u].status,
                },
            ));
            assert(spec_queue_all(m, raws) =~= (Model {
                responses: m.responses.insert(
                    u,
                    Response {
                        count: (m.responses[u].count + raws.len()) as u32,
                        status: m.responses[u].status,
                    },
                ),
                ..m
            }));
        }
    }
}

/// Dedup law: in an unbounded crawl, any run of `queue` calls that all
/// normalize to one URL the ledger does not yet hold leaves exactly one
/// record for it, counting one per presentation — or, where the policy
/// turns the URL away, no trace at all.
pub proof fn lemma_dedup(m: Model, raws: Seq<Seq<char>>, u: Seq<char>)
    requires
        m.limit == 0,
        !m.responses.contains_key(u),
        1 <= raws.len() <= u32::MAX,
    ensures
        (forall|i: int| 0 <= i < raws.len() ==> norm_spec(m.base_text, #[trigger] raws[i]) == u)
            ==> spec_queue_all(m, raws) == (if spec_decide(m, u) == Admission::Admitted {
            Model {
                responses: m.responses.insert(
                    u,
                    Response { count: raws.len() as u32, status: 0 },
                ),
                pending: m.pending.push(u),
                order: m.order.push(u),
                ..m
            }
        } else {
            m
        }),
    decreases raws.len(),
{
    if forall|i: int| 0 <= i < raws.len() ==> norm_spec(m.base_text, #[trigger] raws[i]) == u {
        assert(norm_spec(m.base_text, raws[0]) == u);
        let m1 = spec_queue(m, raws[0]);
        if spec_decide(m, u) == Admission::Admitted {
            lemma_dedup_present(m1, raws.drop_first(), u);
            assert(m1.responses.insert(
                u,
                Response { count: (1 + raws.drop_first().len()) as u32, status: 0 },
            ) =~= m.responses.insert(u, Response { count: raws.len() as u32, status: 0 }));
            assert(spec_queue_all(m, raws) =~= (Model {
                responses: m.responses.insert(
                    u,
                    Response { count: raws.len() as u32, status: 0 },
                ),
                pending: m.pending.push(u),
                order: m.order.push(u),
                ..m
            }));
        } else {
            assert(m1 == m);
            if raws.len() > 1 {
                lemma_dedup(m, raws.drop_first(), u);
            }
        }
    }
}

/// Limit law, one step: with a positive cap, one `queue` call keeps the
/// ledger within the cap, and at the cap it changes nothing at all.
pub proof fn lemma_limit_step(m: Model, raw: Seq<char>)
    requires
        m.limit > 0,
        m.responses.dom().finite(),
    ensures
        spec_queue(m, raw).responses.dom().finite(),
        m.responses.dom().len() <= m.limit ==> spec_queue(m, raw).responses.dom().len()
            <= m.limit,
        m.responses.dom().len() >= m.limit ==> spec_queue(m, raw) == m,
{
    let u = norm_spec(m.base_text, raw);
    match spec_decide(m, u) {
        Admission::Duplicate => {
            assert(spec_queue(m, raw).responses.dom() =~= m.responses.dom());
        },
        Admission::Admitted => {
            assert(spec_queue(m, raw).responses.dom() =~= m.responses.dom().insert(u));
        },
        _ => {},
    }
}

/// Limit law: with a positive cap, no run of `queue` calls ever takes the
/// ledger past the cap.
pub proof fn lemma_limit(m: Model, raws: Seq<Seq<char>>)
    requires
        m.limit > 0,
        m.responses.dom().finite(),
        m.responses.dom().len() <= m.limit,
    ensures
        spec_queue_all(m, raws).responses.dom().finite(),
        spec_queue_all(m, raws).responses.dom().len() <= m.limit,
    decreases raws.len(),
{
    if raws.len() > 0 {
        lemma_limit_step(m, raws[0]);
        lemma_limit(spec_queue(m, raws[0]), raws.drop_first());
    }
}

/// Domain-restriction law, restricted half: with restriction on, a link
/// whose canonical form is an absolute URL on a domain other than the
/// base's never enters the frontier; where the ledger does not hold it
/// either, the call changes nothing at all.
pub proof fn lemma_off_domain(m: Model, raw: Seq<char>)
    requires
        m.restrict_on_domain,
    ensures
        (parse_of(norm_spec(m.base_text, raw)) matches ParsedView::Absolute { domain, .. }
            && domain != m.base_domain) ==> spec_queue(m, raw).pending == m.pending,
        (parse_of(norm_spec(m.base_text, raw)) matches ParsedView::Absolute { domain, .. }
            && domain != m.base_domain && !m.responses.contains_key(
            norm_spec(m.base_text, raw),
        )) ==> spec_queue(m, raw) == m,
{
}

/// Admission atomicity: one `queue` call grows the frontier exactly as far
/// as the ledger's key set — each by one on admission, neither otherwise.
/// A URL therefore enters the frontier at most once, and only together with
/// its ledger record.
pub proof fn lemma_admission_atomic(m: Model, raw: Seq<char>)
    requires
        m.responses.dom().finite(),
    ensures
        spec_queue(m, raw).pending.len() - m.pending.len() == spec_queue(
            m,
            raw,
        ).responses.dom().len() - m.responses.dom().len(),
        m.pending.len() <= spec_queue(m, raw).pending.len() <= m.pending.len() + 1,
{
    let u = norm_spec(m.base_text, raw);
    match spec_decide(m, u) {
        Admission::Duplicate => {
            assert(spec_queue(m, raw).responses.dom() =~= m.responses.dom());
        },
        Admission::Admitted => {
            assert(spec_queue(m, raw).responses.dom() =~= m.responses.dom().insert(u));
        },
        _ => {},
    }
}

/// Report completeness: the key list that [`Crawler::keys`] returns holds
/// every ledger key exactly once, so the final dump covers every URL ever
/// admitted, with no repeats.
pub proof fn lemma_keys_complete(c: &Crawler)
    requires
        c.wf(),
    ensures
        c@.order.to_set() == c@.responses.dom(),
        c@.order.len() == c@.responses.dom().len(),
{
    assert(c@.order.to_set() =~= c@.responses.dom());
    c@.order.unique_seq_to_set();
}

/// Termination measure: the frontier never outgrows the ledger, because it
/// holds distinct ledger keys only. With `lemma_limit` and
/// `lemma_admission_atomic`, a capped crawl can only pop finitely often:
/// every pop shortens the frontier, and the pushes are bounded by the cap.
pub proof fn lemma_frontier_bounded(c: &Crawler)
    requires
        c.wf(),
    ensures
        c@.pending.len() <= c@.responses.dom().len(),
{
    c@.pending.unique_seq_to_set();
    assert(c@.pending.to_set().subset_of(c@.responses.dom()));
    lemma_len_subset(c@.pending.to_set(), c@.responses.dom());
}

} // verus!
