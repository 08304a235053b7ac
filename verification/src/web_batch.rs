//! The web-render worker's decisions for one batch of queued jobs: which
//! jobs are dropped because their page was left, which renders are answered
//! `Stale` because their source moved, which rescales are answered from the
//! disk cache, and how the fresh renders merge into one browser batch.
//! Receiving, decoding and the browser itself stay with the caller.
use vstd::prelude::*;

verus! {

/// What the worker needs to know of one queued job.
#[derive(Debug, Clone)]
pub enum JobHead {
    /// Draw these artifacts (their cache keys), for a pane `max_cols` wide,
    /// built from source epoch `src_epoch`; `has_auth` when the job may
    /// reach a browser.
    Render { gen: u64, src_epoch: u64, keys: Vec<String>, max_cols: u16, has_auth: bool },
    /// Re-encode one cached artifact at a new column cap.
    Rescale { gen: u64 },
    /// Quit once this batch is done.
    Stop,
}

/// The ghost picture of a job.
pub enum JobModel {
    Render { gen: u64, src_epoch: u64, keys: Seq<Seq<char>>, max_cols: u16, has_auth: bool },
    Rescale { gen: u64 },
    Stop,
}

pub open spec fn job_model(j: JobHead) -> JobModel {
    match j {
        JobHead::Render { gen, src_epoch, keys, max_cols, has_auth } => JobModel::Render {
            gen,
            src_epoch,
            keys: keys@.map_values(|k: String| k@),
            max_cols,
            has_auth,
        },
        JobHead::Rescale { gen } => JobModel::Rescale { gen },
        JobHead::Stop => JobModel::Stop,
    }
}

pub open spec fn jobs_model(v: Seq<JobHead>) -> Seq<JobModel> {
    v.map_values(|j: JobHead| job_model(j))
}

/// A reply the worker sends before the merged render runs, in job order.
#[derive(Debug, Clone, Copy, PartialEq, Eq, Structural)]
pub enum Reply {
    /// Answer job `job`'s rescale from the disk cache.
    Rescale { job: usize },
    /// Answer request `req` of render job `job` with `Stale`.
    Stale { job: usize, req: usize },
}

/// The batch's plan. `merged` is the one browser batch, if any fresh render
/// was queued: its requests as `(job, request)` pairs, first occurrence of
/// each key kept, in queue order; `gen`, `src_epoch` and `max_cols` of the
/// last fresh render; and the job whose credential the batch uses (the
/// first fresh render that has one).
#[derive(Debug, Clone)]
pub struct Merged {
    pub gen: u64,
    pub src_epoch: u64,
    pub max_cols: u16,
    pub auth_from: Option<usize>,
    pub reqs: Vec<(usize, usize)>,
}

#[derive(Debug, Clone)]
pub struct BatchPlan {
    pub replies: Vec<Reply>,
    pub merged: Option<Merged>,
    pub stop: bool,
}

/// The plan, as pure values.
pub struct PlanModel {
    pub replies: Seq<Reply>,
    pub merged: Option<(u64, u64, u16, Option<usize>, Seq<(usize, usize)>)>,
    pub stop: bool,
}

pub open spec fn plan_view(p: BatchPlan) -> PlanModel {
    PlanModel {
        replies: p.replies@,
        merged: match p.merged {
            Some(m) => Some((m.gen, m.src_epoch, m.max_cols, m.auth_from, m.reqs@)),
            None => None,
        },
        stop: p.stop,
    }
}

/// The job belongs to the page being shown (a `Stop` belongs to none).
pub open spec fn live(j: JobModel, gen: u64) -> bool {
    match j {
        JobModel::Render { gen: g, .. } => g == gen,
        JobModel::Rescale { gen: g } => g == gen,
        JobModel::Stop => false,
    }
}

/// `Stale` replies for requests `0..n` of job `job`.
pub open spec fn stale_replies(job: int, n: int) -> Seq<Reply>
    decreases n,
{
    if n <= 0 {
        Seq::empty()
    } else {
        stale_replies(job, n - 1).push(Reply::Stale { job: job as usize, req: (n - 1) as usize })
    }
}

/// The key of merged request `p`.
pub open spec fn key_at(jobs: Seq<JobModel>, p: (usize, usize)) -> Seq<char> {
    match jobs[p.0 as int] {
        JobModel::Render { keys, .. } => keys[p.1 as int],
        _ => Seq::empty(),
    }
}

pub open spec fn has_key(jobs: Seq<JobModel>, reqs: Seq<(usize, usize)>, k: Seq<char>) -> bool {
    exists|i: int| 0 <= i < reqs.len() && key_at(jobs, #[trigger] reqs[i]) == k
}

/// Requests `0..n` of job `job` added to `reqs`, skipping a key already
/// there.
pub open spec fn add_keys(jobs: Seq<JobModel>, reqs: Seq<(usize, usize)>, job: int, n: int) -> Seq<(usize, usize)>
    decreases n,
{
    if n <= 0 {
        reqs
    } else {
        let before = add_keys(jobs, reqs, job, n - 1);
        let p = (job as usize, (n - 1) as usize);
        if has_key(jobs, before, key_at(jobs, p)) {
            before
        } else {
            before.push(p)
        }
    }
}

/// The plan after the first `k` jobs.
pub open spec fn plan_prefix(jobs: Seq<JobModel>, gen: u64, src: u64, k: int) -> PlanModel
    decreases k,
{
    if k <= 0 {
        PlanModel { replies: Seq::empty(), merged: None, stop: false }
    } else {
        let p = plan_prefix(jobs, gen, src, k - 1);
        let j = jobs[k - 1];
        let stop = p.stop || j is Stop;
        if !live(j, gen) {
            PlanModel { stop, ..p }
        } else {
            match j {
                JobModel::Rescale { .. } => PlanModel {
                    replies: p.replies.push(Reply::Rescale { job: (k - 1) as usize }),
                    ..p
                },
                JobModel::Render { gen: g, src_epoch, keys, max_cols, has_auth } => if src_epoch != src {
                    PlanModel { replies: p.replies + stale_replies(k - 1, keys.len() as int), ..p }
                } else {
                    let (auth, reqs) = match p.merged {
                        Some(m) => (m.3, m.4),
                        None => (None, Seq::empty()),
                    };
                    let auth2 = if auth is Some {
                        auth
                    } else if has_auth {
                        Some((k - 1) as usize)
                    } else {
                        None
                    };
                    PlanModel {
                        merged: Some((g, src_epoch, max_cols, auth2, add_keys(jobs, reqs, k - 1, keys.len() as int))),
                        ..p
                    }
                },
                JobModel::Stop => p,
            }
        }
    }
}

/// The worker's plan for `jobs`, received in this order, while the page
/// generation is `gen` and the source epoch `src`.
pub open spec fn spec_plan_batch(jobs: Seq<JobModel>, gen: u64, src: u64) -> PlanModel {
    plan_prefix(jobs, gen, src, jobs.len() as int)
}

fn str_same(a: &String, b: &String) -> (r: bool)
    ensures
        r == (a@ == b@),
{
    let x = a.as_str();
    let y = b.as_str();
    crate::text::str_eq(x, y)
}

/// Is request `(job, req)`'s key already among `reqs`?
fn already_merged(jobs: &[JobHead], reqs: &Vec<(usize, usize)>, job: usize, req: usize) -> (r: bool)
    requires
        job < jobs.len(),
        jobs@[job as int] is Render,
        req < jobs@[job as int]->Render_keys.len(),
        forall|i: int|
            0 <= i < reqs.len() ==> (#[trigger] reqs@[i]).0 < jobs.len() && jobs@[reqs@[i].0 as int] is Render
                && reqs@[i].1 < jobs@[reqs@[i].0 as int]->Render_keys.len(),
    ensures
        r == has_key(jobs_model(jobs@), reqs@, key_at(jobs_model(jobs@), (job, req))),
{
    let ghost m = jobs_model(jobs@);
    let key: &String = match &jobs[job] {
        JobHead::Render { keys, .. } => &keys[req],
        _ => {
            assert(false);
            return false;
        },
    };
    assert(key@ == key_at(m, (job, req)));
    let mut i: usize = 0;
    while i < reqs.len()
        invariant
            i <= reqs.len(),
            m == jobs_model(jobs@),
            key@ == key_at(m, (job, req)),
            forall|t: int|
                0 <= t < reqs.len() ==> (#[trigger] reqs@[t]).0 < jobs.len() && jobs@[reqs@[t].0 as int] is Render
                    && reqs@[t].1 < jobs@[reqs@[t].0 as int]->Render_keys.len(),
            forall|t: int| 0 <= t < i ==> key_at(m, #[trigger] reqs@[t]) != key_at(m, (job, req)),
        decreases reqs.len() - i,
    {
        let (a, b) = reqs[i];
        let other: &String = match &jobs[a] {
            JobHead::Render { keys, .. } => &keys[b],
            _ => {
                assert(false);
                return false;
            },
        };
        assert(other@ == key_at(m, reqs@[i as int]));
        if str_same(other, key) {
            return true;
        }
        i += 1;
    }
    false
}

/// Decide one batch: drop jobs of a page already left (they were never
/// accepted and owe no reply), note a `Stop`, answer each rescale from the
/// cache and each render whose source moved with `Stale`, in queue order,
/// and merge the fresh renders into one browser batch.
pub fn plan_batch(jobs: &[JobHead], gen: u64, src: u64) -> (p: BatchPlan)
    ensures
        plan_view(p) == spec_plan_batch(jobs_model(jobs@), gen, src),
{
    let ghost m = jobs_model(jobs@);
    let mut replies: Vec<Reply> = Vec::new();
    let mut stop = false;
    let mut has_merged = false;
    let mut mgen: u64 = 0;
    let mut msrc: u64 = 0;
    let mut mcols: u16 = 0;
    let mut auth_from: Option<usize> = None;
    let mut reqs: Vec<(usize, usize)> = Vec::new();
    let mut k: usize = 0;
    while k < jobs.len()
        invariant
            k <= jobs.len(),
            m == jobs_model(jobs@),
            plan_prefix(m, gen, src, k as int).replies == replies@,
            plan_prefix(m, gen, src, k as int).stop == stop,
            plan_prefix(m, gen, src, k as int).merged == (if has_merged {
                Some((mgen, msrc, mcols, auth_from, reqs@))
            } else {
                None
            }),
            !has_merged ==> auth_from is None && reqs@.len() == 0,
            forall|i: int|
                0 <= i < reqs.len() ==> (#[trigger] reqs@[i]).0 < k && jobs@[reqs@[i].0 as int] is Render
                    && reqs@[i].1 < jobs@[reqs@[i].0 as int]->Render_keys.len(),
        decreases jobs.len() - k,
    {
        let ghost before = plan_prefix(m, gen, src, k as int);
        assert(m[k as int] == job_model(jobs@[k as int]));
        match &jobs[k] {
            JobHead::Stop => {
                stop = true;
            },
            JobHead::Rescale { gen: g } => {
                if *g == gen {
                    replies.push(Reply::Rescale { job: k });
                }
            },
            JobHead::Render { gen: g, src_epoch, keys, max_cols, has_auth } => {
                if *g == gen {
                    if *src_epoch != src {
                        let ghost r0 = replies@;
                        let mut q: usize = 0;
                        assert(r0 + stale_replies(k as int, 0) =~= r0);
                        while q < keys.len()
                            invariant
                                q <= keys.len(),
                                replies@ == r0 + stale_replies(k as int, q as int),
                            decreases keys.len() - q,
                        {
                            replies.push(Reply::Stale { job: k, req: q });
                            assert(replies@ =~= r0 + stale_replies(k as int, q + 1));
                            q += 1;
                        }
                    } else {
                        if !has_merged {
                            auth_from = None;
                        }
                        if auth_from.is_none() && *has_auth {
                            auth_from = Some(k);
                        }
                        let ghost r0 = reqs@;
                        let ghost prev_auth = match before.merged {
                            Some(mm) => mm.3,
                            None => None,
                        };
                        assert(r0 == match before.merged {
                            Some(mm) => mm.4,
                            None => Seq::<(usize, usize)>::empty(),
                        });
                        assert(auth_from == (if prev_auth is Some {
                            prev_auth
                        } else if *has_auth {
                            Some(k)
                        } else {
                            None
                        }));
                        let mut q: usize = 0;
                        while q < keys.len()
                            invariant
                                q <= keys.len(),
                                m == jobs_model(jobs@),
                                before == plan_prefix(m, gen, src, k as int),
                                r0 == match before.merged {
                                    Some(mm) => mm.4,
                                    None => Seq::<(usize, usize)>::empty(),
                                },
                                k < jobs.len(),
                                jobs@[k as int] is Render,
                                m[k as int] is Render,
                                keys@.len() == jobs@[k as int]->Render_keys.len(),
                                reqs@ == add_keys(m, r0, k as int, q as int),
                                forall|i: int|
                                    0 <= i < reqs.len() ==> (#[trigger] reqs@[i]).0 < k + 1 && jobs@[reqs@[
                                        i
                                    ].0 as int] is Render && reqs@[i].1 < jobs@[reqs@[i].0 as int]->Render_keys.len(),
                            decreases keys.len() - q,
                        {
                            if !already_merged(jobs, &reqs, k, q) {
                                reqs.push((k, q));
                            }
                            q += 1;
                        }
                        has_merged = true;
                        mgen = *g;
                        msrc = *src_epoch;
                        mcols = *max_cols;
                    }
                }
            },
        }
        k += 1;
        assert(plan_prefix(m, gen, src, k as int).replies == replies@);
    }
    assert(m.len() == jobs.len());
    let merged = if has_merged {
        Some(Merged { gen: mgen, src_epoch: msrc, max_cols: mcols, auth_from, reqs })
    } else {
        None
    };
    BatchPlan { replies, merged, stop }
}


proof fn lemma_add_keys_keeps(jobs: Seq<JobModel>, reqs: Seq<(usize, usize)>, job: int, n: int, k: Seq<char>)
    requires
        has_key(jobs, reqs, k),
    ensures
        has_key(jobs, add_keys(jobs, reqs, job, n), k),
    decreases n,
{
    if n > 0 {
        lemma_add_keys_keeps(jobs, reqs, job, n - 1, k);
        let before = add_keys(jobs, reqs, job, n - 1);
        let p = (job as usize, (n - 1) as usize);
        if !has_key(jobs, before, key_at(jobs, p)) {
            let i = choose|i: int| 0 <= i < before.len() && key_at(jobs, #[trigger] before[i]) == k;
            assert(before.push(p)[i] == before[i]);
        }
    }
}

proof fn lemma_add_keys_covers(jobs: Seq<JobModel>, reqs: Seq<(usize, usize)>, job: int, n: int)
    requires
        0 <= job,
        0 <= n,
    ensures
        forall|q: int| 0 <= q < n ==> has_key(jobs, add_keys(jobs, reqs, job, n), #[trigger] key_at(jobs, (job as usize, q as usize))),
    decreases n,
{
    if n > 0 {
        lemma_add_keys_covers(jobs, reqs, job, n - 1);
        let before = add_keys(jobs, reqs, job, n - 1);
        let p = (job as usize, (n - 1) as usize);
        assert forall|q: int| 0 <= q < n implies has_key(jobs, add_keys(jobs, reqs, job, n), #[trigger] key_at(jobs, (job as usize, q as usize))) by {
            if q < n - 1 {
                lemma_add_keys_keeps(jobs, before, job, 0, key_at(jobs, (job as usize, q as usize)));
                if !has_key(jobs, before, key_at(jobs, p)) {
                    let kq = key_at(jobs, (job as usize, q as usize));
                    let i = choose|i: int| 0 <= i < before.len() && key_at(jobs, #[trigger] before[i]) == kq;
                    assert(before.push(p)[i] == before[i]);
                }
            } else {
                if !has_key(jobs, before, key_at(jobs, p)) {
                    assert(before.push(p)[before.len() as int] == p);
                }
            }
        }
    }
}

/// A request of a live render whose source is current.
pub open spec fn fresh_request(jobs: Seq<JobModel>, gen: u64, src: u64, j: int, q: int) -> bool {
    &&& 0 <= j < jobs.len()
    &&& live(jobs[j], gen)
    &&& jobs[j] is Render
    &&& jobs[j]->Render_src_epoch == src
    &&& 0 <= q < jobs[j]->Render_keys.len()
}

proof fn lemma_prefix_covers(jobs: Seq<JobModel>, gen: u64, src: u64, k: int)
    requires
        0 <= k <= jobs.len(),
    ensures
        forall|j: int, q: int|
            j < k && #[trigger] fresh_request(jobs, gen, src, j, q) ==> plan_prefix(jobs, gen, src, k).merged is Some
                && has_key(jobs, plan_prefix(jobs, gen, src, k).merged->Some_0.4, key_at(jobs, (j as usize, q as usize))),
    decreases k,
{
    if k > 0 {
        lemma_prefix_covers(jobs, gen, src, k - 1);
        let p = plan_prefix(jobs, gen, src, k - 1);
        let jk = jobs[k - 1];
        assert forall|j: int, q: int|
            j < k && #[trigger] fresh_request(jobs, gen, src, j, q) implies plan_prefix(jobs, gen, src, k).merged is Some
                && has_key(jobs, plan_prefix(jobs, gen, src, k).merged->Some_0.4, key_at(jobs, (j as usize, q as usize))) by {
            let kk = key_at(jobs, (j as usize, q as usize));
            if live(jk, gen) && jk is Render && jk->Render_src_epoch == src {
                let reqs = match p.merged {
                    Some(m) => m.4,
                    None => Seq::empty(),
                };
                let n = jk->Render_keys.len() as int;
                if j < k - 1 {
                    lemma_add_keys_keeps(jobs, reqs, k - 1, n, kk);
                } else {
                    lemma_add_keys_covers(jobs, reqs, k - 1, n);
                }
            }
        }
    }
}

/// No fresh request is lost: every request of a render that belongs to the
/// page being shown and was built from the current source rides in the one
/// merged browser batch (under its key; a key asked twice rides once).
pub proof fn law_every_fresh_request_is_merged(jobs: Seq<JobModel>, gen: u64, src: u64, j: int, q: int)
    requires
        fresh_request(jobs, gen, src, j, q),
    ensures
        spec_plan_batch(jobs, gen, src).merged is Some,
        has_key(jobs, spec_plan_batch(jobs, gen, src).merged->Some_0.4, key_at(jobs, (j as usize, q as usize))),
{
    lemma_prefix_covers(jobs, gen, src, jobs.len() as int);
}

} // verus!
