//! The connector layer: the contract every external-tracker adapter
//! satisfies, and the registry that matches remote URLs to adapters.
//!
//! Adapters live outside this crate; the registry is generic over any type
//! that implements the contract, and a set of adapters can be carried as a
//! tagged variant implementing it.

use vstd::prelude::*;

use crate::task::{Comment, Label, Task};

verus! {

/// The tri-valued remote filter, with the open and closed status labels of
/// each side.
#[derive(Debug, PartialEq)]
pub enum RemoteTaskState {
    All,
    Open(String, String),
    Closed(String, String),
}

/// What every external-tracker adapter exposes.  The three description
/// methods carry contracts tying them to their specification-level values;
/// the remote CRUD methods perform network work and promise nothing here.
pub trait RemoteConnector {
    /// The adapter's short tag, mathematically.
    spec fn type_tag_spec(&self) -> Seq<char>;

    /// The adapter-contributed configuration keys, mathematically.
    spec fn config_options_spec(&self) -> Option<Seq<Seq<char>>>;

    /// The owner/project pair the adapter reads off a remote URL it
    /// supports, mathematically.
    spec fn supports_remote_spec(&self, url: Seq<char>) -> Option<(Seq<char>, Seq<char>)>;

    fn type_tag(&self) -> (r: String)
        ensures
            r@ == self.type_tag_spec(),
    ;

    fn get_config_options(&self) -> (r: Option<Vec<String>>)
        ensures
            r.deep_view() == self.config_options_spec(),
    ;

    fn supports_remote(&self, url: &str) -> (r: Option<(String, String)>)
        ensures
            r.deep_view() == self.supports_remote_spec(url@),
    ;

    fn list_remote_tasks(
        &self,
        user: &String,
        repo: &String,
        with_comments: bool,
        with_labels: bool,
        limit: Option<usize>,
        state: RemoteTaskState,
        task_statuses: &Vec<String>,
    ) -> Result<Vec<Task>, String>;

    fn get_remote_task(
        &self,
        user: &String,
        repo: &String,
        task_id: &String,
        with_comments: bool,
        with_labels: bool,
        task_statuses: &Vec<String>,
    ) -> Result<Task, String>;

    fn create_remote_task(&self, user: &String, repo: &String, task: &Task) -> Result<
        String,
        String,
    >;

    fn create_remote_comment(
        &self,
        user: &String,
        repo: &String,
        task_id: &String,
        comment: &Comment,
    ) -> Result<String, String>;

    fn create_remote_label(
        &self,
        user: &String,
        repo: &String,
        task_id: &String,
        label: &Label,
    ) -> Result<(), String>;

    fn update_remote_task(
        &self,
        user: &String,
        repo: &String,
        task: &Task,
        labels: Option<&Vec<Label>>,
        state: RemoteTaskState,
    ) -> Result<(), String>;

    fn update_remote_comment(
        &self,
        user: &String,
        repo: &String,
        task_id: &String,
        comment_id: &String,
        text: &String,
    ) -> Result<(), String>;

    fn delete_remote_task(&self, user: &String, repo: &String, task_id: &String) -> Result<
        (),
        String,
    >;

    fn delete_remote_comment(
        &self,
        user: &String,
        repo: &String,
        task_id: &String,
        comment_id: &String,
    ) -> Result<(), String>;

    fn delete_remote_label(
        &self,
        user: &String,
        repo: &String,
        task_id: &String,
        name: &String,
    ) -> Result<(), String>;
}

/// Whether the filter admits the adapter.
pub open spec fn filter_admits<C: RemoteConnector>(c: C, f: Option<Seq<char>>) -> bool {
    match f {
        None => true,
        Some(t) => c.type_tag_spec() == t,
    }
}

/// The matches one remote URL yields: for each admitted adapter that
/// supports the URL, in registry order, its index with the owner/project
/// pair it read.
pub open spec fn matches_for_remote<C: RemoteConnector>(
    cs: Seq<C>,
    url: Seq<char>,
    f: Option<Seq<char>>,
) -> Seq<(usize, Seq<char>, Seq<char>)>
    decreases cs.len(),
{
    if cs.len() == 0 {
        Seq::<(usize, Seq<char>, Seq<char>)>::empty()
    } else {
        let head = matches_for_remote(cs.drop_last(), url, f);
        let c = cs.last();
        let idx = (cs.len() - 1) as usize;
        if filter_admits(c, f) {
            match c.supports_remote_spec(url) {
                Some(p) => head.push((idx, p.0, p.1)),
                None => head,
            }
        } else {
            head
        }
    }
}

/// All matches: for each remote in order, each admitted supporting adapter
/// in registry order.
pub open spec fn matching_spec<C: RemoteConnector>(
    cs: Seq<C>,
    remotes: Seq<Seq<char>>,
    f: Option<Seq<char>>,
) -> Seq<(usize, Seq<char>, Seq<char>)>
    decreases remotes.len(),
{
    if remotes.len() == 0 {
        Seq::<(usize, Seq<char>, Seq<char>)>::empty()
    } else {
        matching_spec(cs, remotes.drop_last(), f) + matches_for_remote(cs, remotes.last(), f)
    }
}

/// The matches of one URL are exactly the admitted adapters that support
/// it: every listed index is such an adapter with the pair it read, and
/// every such adapter is listed.
pub proof fn lemma_matches_for_remote_exact<C: RemoteConnector>(
    cs: Seq<C>,
    url: Seq<char>,
    f: Option<Seq<char>>,
)
    requires
        cs.len() <= usize::MAX,
    ensures
        forall|j: int|
            0 <= j < matches_for_remote(cs, url, f).len() ==> {
                let m = #[trigger] matches_for_remote(cs, url, f)[j];
                &&& 0 <= m.0 < cs.len()
                &&& filter_admits(cs[m.0 as int], f)
                &&& cs[m.0 as int].supports_remote_spec(url) == Some((m.1, m.2))
            },
        forall|i: int|
            0 <= i < cs.len() && filter_admits(#[trigger] cs[i], f) && cs[i].supports_remote_spec(
                url,
            ) is Some ==> exists|j: int|
                0 <= j < matches_for_remote(cs, url, f).len() && (#[trigger] matches_for_remote(
                    cs,
                    url,
                    f,
                )[j]).0 == i as usize,
    decreases cs.len(),
{
    if cs.len() > 0 {
        lemma_matches_for_remote_exact(cs.drop_last(), url, f);
        let head = matches_for_remote(cs.drop_last(), url, f);
        let m = matches_for_remote(cs, url, f);
        assert(forall|k: int| 0 <= k < cs.drop_last().len() ==> #[trigger] cs.drop_last()[k]
            == cs[k]);
        let c = cs.last();
        if filter_admits(c, f) {
            match c.supports_remote_spec(url) {
                Some(p) => {
                    assert(m == head.push((((cs.len() - 1) as usize), p.0, p.1)));
                },
                None => {
                    assert(m == head);
                },
            }
        } else {
            assert(m == head);
        }
        assert forall|j: int| 0 <= j < m.len() implies {
            let e = #[trigger] m[j];
            &&& 0 <= e.0 < cs.len()
            &&& filter_admits(cs[e.0 as int], f)
            &&& cs[e.0 as int].supports_remote_spec(url) == Some((e.1, e.2))
        } by {
            if j < head.len() {
                assert(m[j] == head[j]);
                assert(cs.drop_last()[head[j].0 as int] == cs[head[j].0 as int]);
            } else {
                assert(filter_admits(c, f) && c.supports_remote_spec(url) is Some) by {
                    if !(filter_admits(c, f) && c.supports_remote_spec(url) is Some) {
                        assert(m == head);
                    }
                }
                let p = c.supports_remote_spec(url)->Some_0;
                assert(m == head.push((((cs.len() - 1) as usize), p.0, p.1)));
                assert(m[j] == ((((cs.len() - 1) as usize)), p.0, p.1));
                assert(cs[m[j].0 as int] == c);
            }
        }
        assert forall|i: int|
            0 <= i < cs.len() && filter_admits(#[trigger] cs[i], f) && cs[i].supports_remote_spec(
                url,
            ) is Some implies exists|j: int|
            0 <= j < m.len() && (#[trigger] m[j]).0 == i as usize by {
            if i == cs.len() - 1 {
                assert(cs[i] == c);
                assert(m[m.len() - 1].0 == i as usize);
            } else {
                assert(cs.drop_last()[i] == cs[i]);
                let j = choose|j: int| 0 <= j < head.len() && (#[trigger] head[j]).0 == i as usize;
                assert(m[j] == head[j]);
                assert(m[j].0 == i as usize);
            }
        }
    }
}

/// One tuple per remote and admitted supporting adapter, remotes outermost,
/// adapters in registry order; duplicates preserved.
pub fn get_matching_remote_connectors<C: RemoteConnector>(
    connectors: &Vec<C>,
    remotes: &Vec<String>,
    connector_type: &Option<String>,
) -> (r: Vec<(usize, String, String)>)
    ensures
        r.deep_view() == matching_spec(
            connectors@,
            remotes.deep_view(),
            connector_type.deep_view(),
        ),
{
    let ghost csd = connectors@;
    let ghost rsd = remotes.deep_view();
    let ghost fd = connector_type.deep_view();
    let mut out: Vec<(usize, String, String)> = Vec::new();
    let mut ri: usize = 0;
    while ri < remotes.len()
        invariant
            0 <= ri <= remotes.len(),
            csd == connectors@,
            rsd == remotes.deep_view(),
            fd == connector_type.deep_view(),
            rsd.len() == remotes.len(),
            out.deep_view() =~= matching_spec(csd, rsd.take(ri as int), fd),
        decreases remotes.len() - ri,
    {
        proof {
            assert(rsd[ri as int] == remotes@[ri as int]@);
        }
        let mut ci: usize = 0;
        while ci < connectors.len()
            invariant
                0 <= ci <= connectors.len(),
                0 <= ri < remotes.len(),
                csd == connectors@,
                rsd == remotes.deep_view(),
                fd == connector_type.deep_view(),
                rsd.len() == remotes.len(),
                rsd[ri as int] == remotes@[ri as int]@,
                out.deep_view() =~= matching_spec(csd, rsd.take(ri as int), fd)
                    + matches_for_remote(csd.take(ci as int), rsd[ri as int], fd),
            decreases connectors.len() - ci,
        {
            let admitted = match connector_type {
                None => true,
                Some(t) => crate::text::str_eq(
                    t.as_str(),
                    connectors[ci].type_tag().as_str(),
                ),
            };
            let ghost before = out@;
            if admitted {
                match connectors[ci].supports_remote(remotes[ri].as_str()) {
                    Some((user, repo)) => {
                        let ghost item = (ci, user@, repo@);
                        out.push((ci, user, repo));
                        proof {
                            crate::task::lemma_vec_deep(&out);
                            assert(crate::task::seq_deep(out@).drop_last() =~= crate::task::seq_deep(
                                before,
                            ));
                            assert(out.deep_view() =~= crate::task::seq_deep(before).push(item));
                        }
                    },
                    None => {},
                }
            }
            proof {
                assert(csd.take(ci + 1).drop_last() =~= csd.take(ci as int));
                assert(csd.take(ci + 1).last() == csd[ci as int]);
                crate::task::lemma_vec_deep(&out);
                assert(out.deep_view() =~= matching_spec(csd, rsd.take(ri as int), fd)
                    + matches_for_remote(csd.take(ci + 1), rsd[ri as int], fd));
            }
            ci = ci + 1;
        }
        proof {
            assert(csd.take(csd.len() as int) =~= csd);
            assert(rsd.take(ri + 1).drop_last() =~= rsd.take(ri as int));
            assert(rsd.take(ri + 1).last() == rsd[ri as int]);
            assert(out.deep_view() =~= matching_spec(csd, rsd.take(ri + 1), fd));
        }
        ri = ri + 1;
    }
    proof {
        assert(rsd.take(rsd.len() as int) =~= rsd);
    }
    out
}

/// The adapter-contributed configuration keys, flattened in registry order.
pub open spec fn options_spec<C: RemoteConnector>(cs: Seq<C>) -> Seq<Seq<char>>
    decreases cs.len(),
{
    if cs.len() == 0 {
        Seq::<Seq<char>>::empty()
    } else {
        options_spec(cs.drop_last()) + (match cs.last().config_options_spec() {
            Some(l) => l,
            None => Seq::<Seq<char>>::empty(),
        })
    }
}

/// Every adapter's configuration keys, concatenated.
pub fn get_config_options_from_connectors<C: RemoteConnector>(connectors: &Vec<C>) -> (r: Vec<
    String,
>)
    ensures
        r.deep_view() == options_spec(connectors@),
{
    let ghost csd = connectors@;
    let mut out: Vec<String> = Vec::new();
    let mut ci: usize = 0;
    while ci < connectors.len()
        invariant
            0 <= ci <= connectors.len(),
            csd == connectors@,
            out.deep_view() =~= options_spec(csd.take(ci as int)),
        decreases connectors.len() - ci,
    {
        match connectors[ci].get_config_options() {
            Some(opts) => {
                let ghost od = opts.deep_view();
                let mut k: usize = 0;
                while k < opts.len()
                    invariant
                        0 <= k <= opts.len(),
                        csd == connectors@,
                        0 <= ci < connectors.len(),
                        od == opts.deep_view(),
                        od.len() == opts.len(),
                        connectors@[ci as int].config_options_spec() == Some(od),
                        out.deep_view() =~= options_spec(csd.take(ci as int)) + od.take(k as int),
                    decreases opts.len() - k,
                {
                    proof {
                        assert(od[k as int] == opts@[k as int]@);
                    }
                    let ghost before = out@;
                    out.push(opts[k].clone());
                    proof {
                        crate::task::lemma_vec_deep(&out);
                        assert(crate::task::seq_deep(out@).drop_last() =~= crate::task::seq_deep(
                            before,
                        ));
                        assert(out@.last()@ == od[k as int]);
                        assert(out.deep_view() =~= crate::task::seq_deep(before).push(od[
                            k as int]));
                        assert(od.take(k + 1) =~= od.take(k as int).push(od[k as int]));
                        assert(out.deep_view() =~= options_spec(csd.take(ci as int)) + od.take(k
                            + 1));
                    }
                    k = k + 1;
                }
                proof {
                    assert(od.take(od.len() as int) =~= od);
                    assert(csd.take(ci + 1).drop_last() =~= csd.take(ci as int));
                    assert(csd.take(ci + 1).last() == csd[ci as int]);
                    assert(out.deep_view() =~= options_spec(csd.take(ci + 1)));
                }
            },
            None => {
                proof {
                    assert(csd.take(ci + 1).drop_last() =~= csd.take(ci as int));
                    assert(csd.take(ci + 1).last() == csd[ci as int]);
                    assert(out.deep_view() =~= options_spec(csd.take(ci + 1)));
                }
            },
        }
        ci = ci + 1;
    }
    proof {
        assert(csd.take(csd.len() as int) =~= csd);
    }
    out
}

} // verus!
