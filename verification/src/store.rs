//! The task store: a verified model of the repository state the store
//! drives, and every operation on it.
//!
//! The store keeps the task database in the tree of a dedicated reference.
//! Each mutation reads the current tip, derives a new tree, and appends a
//! commit that the reference is moved to.  The model holds the commit graph,
//! the references, the configuration and the remotes as plain values; an
//! unverified binding replays the same transitions on a real repository.

use vstd::prelude::*;

use crate::codec::{
    decode_action, decode_task, encode_action, encode_task, parse_action, parse_task, ser_action,
    ser_task,
};
use crate::decimal::{dec_rec, parse_dec_id, spec_dec_id, u64_to_dec};
use crate::task::{
    lemma_seq_deep_push, lemma_vec_deep, props_find, props_has, props_remove, props_set, props_val,
    seq_deep, Task, TaskAction, TaskV,
};
use crate::text::str_eq;
use vstd::string::StringExecFns;

verus! {

/// One entry of a task tree: a blob under a name.
pub struct TreeEntry {
    pub name: String,
    pub blob: String,
}

impl View for TreeEntry {
    type V = (Seq<char>, Seq<char>);

    open spec fn view(&self) -> (Seq<char>, Seq<char>) {
        (self.name@, self.blob@)
    }
}

impl DeepView for TreeEntry {
    type V = (Seq<char>, Seq<char>);

    open spec fn deep_view(&self) -> (Seq<char>, Seq<char>) {
        self.view()
    }
}

/// The mathematical value of a commit: its tree, its first parent, and its
/// message.
#[verifier::ext_equal]
pub ghost struct CommitV {
    pub tree: Seq<(Seq<char>, Seq<char>)>,
    pub parent: Option<int>,
    pub message: Seq<char>,
}

/// A commit of the model: a tree, at most one parent, and a message.
pub struct CommitRec {
    pub tree: Vec<TreeEntry>,
    pub parent: Option<usize>,
    pub message: String,
}

impl View for CommitRec {
    type V = CommitV;

    open spec fn view(&self) -> CommitV {
        CommitV {
            tree: self.tree.deep_view(),
            parent: match self.parent {
                Some(p) => Some(p as int),
                None => None,
            },
            message: self.message@,
        }
    }
}

impl DeepView for CommitRec {
    type V = CommitV;

    open spec fn deep_view(&self) -> CommitV {
        self.view()
    }
}

/// A named reference of the model, pointing at a commit.
pub struct RefEntry {
    pub name: String,
    pub target: usize,
}

impl View for RefEntry {
    type V = (Seq<char>, int);

    open spec fn view(&self) -> (Seq<char>, int) {
        (self.name@, self.target as int)
    }
}

impl DeepView for RefEntry {
    type V = (Seq<char>, int);

    open spec fn deep_view(&self) -> (Seq<char>, int) {
        self.view()
    }
}

/// The mathematical value of the whole store.
#[verifier::ext_equal]
pub ghost struct StoreV {
    pub commits: Seq<CommitV>,
    pub refs: Seq<(Seq<char>, int)>,
    pub config: Seq<(Seq<char>, Seq<char>)>,
    pub remotes: Seq<(Seq<char>, Seq<char>)>,
    pub user_name: Option<Seq<char>>,
    pub user_email: Option<Seq<char>>,
}

/// A store handle: the modelled repository state.
pub struct TaskContext {
    pub commits: Vec<CommitRec>,
    pub refs: Vec<RefEntry>,
    pub config: Vec<(String, String)>,
    pub remotes: Vec<(String, String)>,
    pub user_name: Option<String>,
    pub user_email: Option<String>,
}

impl View for TaskContext {
    type V = StoreV;

    open spec fn view(&self) -> StoreV {
        StoreV {
            commits: self.commits.deep_view(),
            refs: self.refs.deep_view(),
            config: self.config.deep_view(),
            remotes: self.remotes.deep_view(),
            user_name: self.user_name.deep_view(),
            user_email: self.user_email.deep_view(),
        }
    }
}

/// The index of the first reference with this name, or -1.
pub open spec fn refs_find(rs: Seq<(Seq<char>, int)>, name: Seq<char>) -> int
    decreases rs.len(),
{
    if rs.len() == 0 {
        -1
    } else if rs[0].0 == name {
        0
    } else {
        let r = refs_find(rs.drop_first(), name);
        if r < 0 {
            -1
        } else {
            r + 1
        }
    }
}

/// A scan that saw no match up to `i`, and a match at `i` if `i` is in
/// range, pins `refs_find` down.
pub proof fn lemma_refs_find_at(rs: Seq<(Seq<char>, int)>, name: Seq<char>, i: int)
    requires
        0 <= i <= rs.len(),
        forall|k: int| 0 <= k < i ==> (#[trigger] rs[k]).0 != name,
        i < rs.len() ==> rs[i].0 == name,
    ensures
        refs_find(rs, name) == if i < rs.len() { i } else { -1 },
    decreases rs.len(),
{
    if rs.len() > 0 {
        if i == 0 {
            if rs[0].0 != name {
                lemma_refs_find_at(rs.drop_first(), name, 0);
            }
        } else {
            assert(rs[0].0 != name);
            assert(forall|k: int| 0 <= k < rs.drop_first().len() ==> #[trigger] rs.drop_first()[k]
                == rs[k + 1]);
            lemma_refs_find_at(rs.drop_first(), name, i - 1);
        }
    }
}

/// The references with `name` bound to `target`.
pub open spec fn refs_set(rs: Seq<(Seq<char>, int)>, name: Seq<char>, target: int) -> Seq<
    (Seq<char>, int),
> {
    if refs_find(rs, name) >= 0 {
        rs.update(refs_find(rs, name), (name, target))
    } else {
        rs.push((name, target))
    }
}

/// Where `refs_find` lands: in range and on the name, when it is not -1.
pub proof fn lemma_refs_find_bounds(rs: Seq<(Seq<char>, int)>, name: Seq<char>)
    ensures
        refs_find(rs, name) >= 0 ==> refs_find(rs, name) < rs.len() && rs[refs_find(rs, name)].0
            == name,
        refs_find(rs, name) == -1 ==> forall|k: int| 0 <= k < rs.len() ==> (#[trigger] rs[k]).0
            != name,
        refs_find(rs, name) >= -1,
    decreases rs.len(),
{
    if rs.len() > 0 && rs[0].0 != name {
        lemma_refs_find_bounds(rs.drop_first(), name);
        assert(forall|k: int| 0 <= k < rs.drop_first().len() ==> #[trigger] rs.drop_first()[k]
            == rs[k + 1]);
        let r = refs_find(rs.drop_first(), name);
        if r >= 0 {
            assert(rs[r + 1].0 == name);
        } else {
            assert forall|k: int| 0 <= k < rs.len() implies (#[trigger] rs[k]).0 != name by {
                if k > 0 {
                    assert(rs.drop_first()[k - 1].0 != name);
                }
            }
        }
    }
}

/// No name match strictly before the first-match index.
pub proof fn lemma_refs_find_at_helper(rs: Seq<(Seq<char>, int)>, name: Seq<char>, j: int)
    requires
        0 <= j < refs_find(rs, name),
    ensures
        rs[j].0 != name,
    decreases rs.len(),
{
    lemma_refs_find_bounds(rs, name);
    assert(rs.len() > 0);
    assert(rs[0].0 != name) by {
        if rs[0].0 == name {
            assert(refs_find(rs, name) == 0);
        }
    }
    if j > 0 {
        assert(forall|m: int| 0 <= m < rs.drop_first().len() ==> #[trigger] rs.drop_first()[m]
            == rs[m + 1]);
        assert(refs_find(rs.drop_first(), name) == refs_find(rs, name) - 1) by {
            let r = refs_find(rs.drop_first(), name);
            if r < 0 {
                assert(refs_find(rs, name) == -1);
            }
        }
        lemma_refs_find_at_helper(rs.drop_first(), name, j - 1);
        assert(rs.drop_first()[j - 1] == rs[j]);
    }
}

/// After a bind, the name leads to the target.
pub proof fn lemma_refs_set_same(rs: Seq<(Seq<char>, int)>, name: Seq<char>, target: int)
    ensures
        refs_find(refs_set(rs, name, target), name) >= 0,
        refs_set(rs, name, target)[refs_find(refs_set(rs, name, target), name)] == (name, target),
{
    lemma_refs_find_bounds(rs, name);
    let f = refs_find(rs, name);
    let t = refs_set(rs, name, target);
    if f >= 0 {
        assert forall|j: int| 0 <= j < f implies (#[trigger] t[j]).0 != name by {
            assert(t[j] == rs[j]);
            lemma_refs_find_at_helper(rs, name, j);
        }
        lemma_refs_find_at(t, name, f);
    } else {
        assert forall|j: int| 0 <= j < rs.len() implies (#[trigger] t[j]).0 != name by {
            assert(t[j] == rs[j]);
        }
        lemma_refs_find_at(t, name, rs.len() as int);
    }
}

/// The references without `name`.
pub open spec fn refs_remove(rs: Seq<(Seq<char>, int)>, name: Seq<char>) -> Seq<(Seq<char>, int)> {
    if refs_find(rs, name) >= 0 {
        rs.remove(refs_find(rs, name))
    } else {
        rs
    }
}

/// The name of the task reference: the `task.ref` configuration value, or
/// its default.
pub open spec fn ref_path_of(s: StoreV) -> Seq<char> {
    if props_has(s.config, "task.ref"@) {
        props_val(s.config, "task.ref"@)
    } else {
        "refs/tasks/tasks"@
    }
}

/// The commit the task reference points at, when it exists.
pub open spec fn tip_of(s: StoreV) -> Option<int> {
    let i = refs_find(s.refs, ref_path_of(s));
    if i >= 0 {
        Some(s.refs[i].1)
    } else {
        None
    }
}

/// The tree at the tip of the task reference, or the empty tree.
pub open spec fn current_tree(s: StoreV) -> Seq<(Seq<char>, Seq<char>)> {
    match tip_of(s) {
        Some(ci) => s.commits[ci].tree,
        None => Seq::<(Seq<char>, Seq<char>)>::empty(),
    }
}

/// Well-formedness: every reference points into the commit list, and every
/// parent precedes its child.
pub open spec fn store_wf(s: StoreV) -> bool {
    &&& forall|i: int| 0 <= i < s.refs.len() ==> 0 <= #[trigger] s.refs[i].1 < s.commits.len()
    &&& forall|i: int|
        0 <= i < s.commits.len() ==> (#[trigger] s.commits[i].parent matches Some(p) ==> 0 <= p
            < i)
}

/// The store after appending a commit and moving the task reference to it.
pub open spec fn push_commit(
    s: StoreV,
    tree: Seq<(Seq<char>, Seq<char>)>,
    parent: Option<int>,
    message: Seq<char>,
) -> StoreV {
    StoreV {
        commits: s.commits.push(CommitV { tree, parent, message }),
        refs: refs_set(s.refs, ref_path_of(s), s.commits.len() as int),
        ..s
    }
}

impl TaskContext {
    /// A fresh store with no commits, references, configuration or remotes.
    pub fn new() -> (r: TaskContext)
        ensures
            r@ == (StoreV {
                commits: Seq::<CommitV>::empty(),
                refs: Seq::<(Seq<char>, int)>::empty(),
                config: Seq::<(Seq<char>, Seq<char>)>::empty(),
                remotes: Seq::<(Seq<char>, Seq<char>)>::empty(),
                user_name: None,
                user_email: None,
            }),
            store_wf(r@),
    {
        let r = TaskContext {
            commits: Vec::new(),
            refs: Vec::new(),
            config: Vec::new(),
            remotes: Vec::new(),
            user_name: None,
            user_email: None,
        };
        proof {
            assert(r.commits.deep_view() =~= Seq::<CommitV>::empty());
            assert(r.refs.deep_view() =~= Seq::<(Seq<char>, int)>::empty());
            assert(r.config.deep_view() =~= Seq::<(Seq<char>, Seq<char>)>::empty());
            assert(r.remotes.deep_view() =~= Seq::<(Seq<char>, Seq<char>)>::empty());
        }
        r
    }

    /// Sets the committer identity the repository would report.
    pub fn set_user(&mut self, name: Option<String>, email: Option<String>)
        ensures
            final(self)@ == (StoreV {
                user_name: name.deep_view(),
                user_email: email.deep_view(),
                ..old(self)@
            }),
    {
        self.user_name = name;
        self.user_email = email;
    }

    /// Adds a configured remote under a name.
    pub fn add_remote(&mut self, name: String, url: String)
        ensures
            final(self)@ == (StoreV {
                remotes: old(self)@.remotes.push((name@, url@)),
                ..old(self)@
            }),
    {
        let ghost before = self.remotes@;
        let pair = (name, url);
        let ghost pairg = pair;
        self.remotes.push(pair);
        proof {
            lemma_vec_deep(&self.remotes);
            lemma_seq_deep_push(before, pairg);
            assert(self@.remotes =~= old(self)@.remotes.push((pairg.0@, pairg.1@)));
        }
    }

    /// The signature's name if present, else its email, else nothing.
    pub fn get_current_user(&self) -> (r: Result<Option<String>, String>)
        ensures
            r matches Ok(u) ==> u.deep_view() == (match self@.user_name {
                Some(n) => Some(n),
                None => self@.user_email,
            }),
            r is Ok,
    {
        match &self.user_name {
            Some(n) => Ok(Some(n.clone())),
            None => match &self.user_email {
                Some(e) => Ok(Some(e.clone())),
                None => Ok(None),
            },
        }
    }

    /// The configuration value under `key`, when one is set.
    pub fn get_config_value(&self, key: &str) -> (r: Result<String, String>)
        ensures
            r is Ok <==> props_has(self@.config, key@),
            r matches Ok(v) ==> v@ == props_val(self@.config, key@),
            r matches Err(e) ==> e@ == "config value '"@ + key@ + "' was not found"@,
    {
        let mut i: usize = 0;
        while i < self.config.len()
            invariant
                0 <= i <= self.config.len(),
                self@.config.len() == self.config.len(),
                forall|k: int| 0 <= k < i ==> (#[trigger] self@.config[k]).0 != key@,
            decreases self.config.len() - i,
        {
            assert(self@.config[i as int] == (self.config@[i as int].0@, self.config@[i
                as int].1@));
            if str_eq(self.config[i].0.as_str(), key) {
                proof {
                    crate::task::lemma_props_find_at(self@.config, key@, i as int);
                }
                return Ok(self.config[i].1.clone());
            }
            i = i + 1;
        }
        proof {
            crate::task::lemma_props_find_at(self@.config, key@, self.config.len() as int);
        }
        Err(String::from_str("config value '").concat(key).concat("' was not found"))
    }

    /// Binds the configuration key to the value.
    pub fn set_config_value(&mut self, key: &str, value: &str) -> (r: Result<(), String>)
        ensures
            r is Ok,
            final(self)@ == (StoreV {
                config: props_set(old(self)@.config, key@, value@),
                ..old(self)@
            }),
    {
        let ghost pd = old(self)@.config;
        proof {
            lemma_vec_deep(&self.config);
        }
        let mut i: usize = 0;
        while i < self.config.len()
            invariant
                0 <= i <= self.config.len(),
                self@ == old(self)@,
                self.config@ == old(self).config@,
                pd == seq_deep(self.config@),
                self@.config.len() == self.config.len(),
                forall|k: int| 0 <= k < i ==> (#[trigger] self@.config[k]).0 != key@,
            decreases self.config.len() - i,
        {
            assert(self@.config[i as int] == (self.config@[i as int].0@, self.config@[i
                as int].1@));
            if str_eq(self.config[i].0.as_str(), key) {
                proof {
                    crate::task::lemma_props_find_at(self@.config, key@, i as int);
                }
                let ghost before = self.config@;
                proof {
                    lemma_vec_deep(&self.config);
                }
                let pair = (key.to_owned(), value.to_owned());
                let ghost pairg = pair;
                self.config[i] = pair;
                proof {
                    assert(pd =~= seq_deep(before));
                    crate::task::lemma_seq_deep_update(before, i as int, pairg);
                    lemma_vec_deep(&self.config);
                    assert(self@.config =~= props_set(pd, key@, value@));
                }
                return Ok(());
            }
            i = i + 1;
        }
        proof {
            crate::task::lemma_props_find_at(self@.config, key@, self.config.len() as int);
        }
        let ghost before = self.config@;
        proof {
            lemma_vec_deep(&self.config);
        }
        let pair = (key.to_owned(), value.to_owned());
        let ghost pairg = pair;
        self.config.push(pair);
        proof {
            assert(pd =~= seq_deep(before));
            crate::task::lemma_seq_deep_push(before, pairg);
            lemma_vec_deep(&self.config);
            assert(self@.config =~= props_set(pd, key@, value@));
        }
        Ok(())
    }

    /// The task reference's name: `task.ref`, defaulting to
    /// `refs/tasks/tasks`.
    pub fn get_ref_path(&self) -> (r: String)
        ensures
            r@ == ref_path_of(self@),
    {
        match self.get_config_value("task.ref") {
            Ok(v) => v,
            Err(_) => "refs/tasks/tasks".to_owned(),
        }
    }

    /// The commit index a reference points at, when the reference exists.
    pub fn ref_target(&self, name: &str) -> (r: Option<usize>)
        ensures
            r matches Some(t) ==> refs_find(self@.refs, name@) >= 0 && t as int == self@.refs[
                refs_find(self@.refs, name@)].1,
            r is None ==> refs_find(self@.refs, name@) == -1,
    {
        let mut i: usize = 0;
        while i < self.refs.len()
            invariant
                0 <= i <= self.refs.len(),
                self@.refs.len() == self.refs.len(),
                forall|k: int| 0 <= k < i ==> (#[trigger] self@.refs[k]).0 != name@,
            decreases self.refs.len() - i,
        {
            assert(self@.refs[i as int] == (self.refs@[i as int].name@, self.refs@[i
                as int].target as int));
            if str_eq(self.refs[i].name.as_str(), name) {
                proof {
                    lemma_refs_find_at(self@.refs, name@, i as int);
                }
                return Some(self.refs[i].target);
            }
            i = i + 1;
        }
        proof {
            lemma_refs_find_at(self@.refs, name@, self.refs.len() as int);
        }
        None
    }

    /// How many commits the model holds.
    pub fn commit_count(&self) -> (r: usize)
        ensures
            r == self@.commits.len(),
    {
        self.commits.len()
    }

    /// The message of the commit at an index.
    pub fn commit_message(&self, i: usize) -> (r: Option<String>)
        ensures
            i < self@.commits.len() ==> (r matches Some(m) && m@ == self@.commits[i as int].message),
            i >= self@.commits.len() ==> r is None,
    {
        if i < self.commits.len() {
            proof {
                assert(self@.commits[i as int] == self.commits@[i as int]@);
            }
            Some(self.commits[i].message.clone())
        } else {
            None
        }
    }

    /// The configured remote URLs, kept to those whose name equals the
    /// filter when one is given.
    pub fn list_remotes(&self, remote: &Option<String>) -> (r: Result<Vec<String>, String>)
        ensures
            r matches Ok(urls) ==> urls.deep_view() == remotes_filtered(
                self@.remotes,
                remote.deep_view(),
            ),
            r is Ok,
    {
        let ghost fd = remote.deep_view();
        let mut out: Vec<String> = Vec::new();
        let mut i: usize = 0;
        while i < self.remotes.len()
            invariant
                0 <= i <= self.remotes.len(),
                self@.remotes.len() == self.remotes.len(),
                fd == remote.deep_view(),
                out.deep_view() =~= remotes_filtered(self@.remotes.take(i as int), fd),
            decreases self.remotes.len() - i,
        {
            assert(self@.remotes[i as int] == (self.remotes@[i as int].0@, self.remotes@[i
                as int].1@));
            let keep = match remote {
                None => true,
                Some(f) => str_eq(f.as_str(), self.remotes[i].0.as_str()),
            };
            let ghost before = out.deep_view();
            if keep {
                let url = self.remotes[i].1.clone();
                let ghost urlg = url;
                out.push(url);
                proof {
                    lemma_vec_deep(&out);
                    assert(seq_deep(out@).drop_last() =~= before);
                    assert(out.deep_view() =~= before.push(urlg@));
                }
            }
            proof {
                lemma_remotes_filtered_snoc(self@.remotes, i as int, fd);
            }
            i = i + 1;
        }
        proof {
            assert(self@.remotes.take(self.remotes.len() as int) =~= self@.remotes);
        }
        Ok(out)
    }

    /// Creates the new reference at the current tip when one exists, points
    /// `task.ref` at the new name, and deletes the old reference when asked
    /// to move it.
    pub fn set_ref_path(&mut self, ref_path: &str, move_ref: bool) -> (r: Result<(), String>)
        ensures
            r is Ok,
            final(self)@ == set_ref_path_spec(old(self)@, ref_path@, move_ref),
            store_wf(old(self)@) ==> store_wf(final(self)@),
    {
        let ghost s0 = old(self)@;
        let old_path = self.get_ref_path();
        let cur = self.ref_target(old_path.as_str());
        match cur {
            Some(target) => {
                self.refs_bind(ref_path, target);
            },
            None => {},
        }
        let _ = self.set_config_value("task.ref", ref_path);
        if move_ref {
            match cur {
                Some(_) => {
                    self.refs_drop(old_path.as_str());
                },
                None => {},
            }
        }
        proof {
            if store_wf(s0) {
                let pathv = ref_path@;
                let opath = ref_path_of(s0);
                let curf = refs_find(s0.refs, opath);
                lemma_refs_find_bounds(s0.refs, opath);
                let target = if curf >= 0 { s0.refs[curf].1 } else { 0 };
                if curf >= 0 {
                    assert(0 <= s0.refs[curf].1 < s0.commits.len());
                }
                let rs1 = if curf >= 0 { refs_set(s0.refs, pathv, target) } else { s0.refs };
                lemma_refs_find_bounds(s0.refs, pathv);
                assert forall|i: int| 0 <= i < rs1.len() implies 0 <= #[trigger] rs1[i].1
                    < s0.commits.len() by {
                    if curf >= 0 {
                        let f = refs_find(s0.refs, pathv);
                        if f >= 0 {
                            assert(rs1 == s0.refs.update(f, (pathv, target)));
                            if i != f {
                                assert(rs1[i] == s0.refs[i]);
                                assert(0 <= s0.refs[i].1 < s0.commits.len());
                            }
                        } else {
                            assert(rs1 == s0.refs.push((pathv, target)));
                            if i < s0.refs.len() {
                                assert(rs1[i] == s0.refs[i]);
                                assert(0 <= s0.refs[i].1 < s0.commits.len());
                            }
                        }
                    } else {
                        assert(rs1[i] == s0.refs[i]);
                        assert(0 <= s0.refs[i].1 < s0.commits.len());
                    }
                }
                let rs2 = if move_ref && curf >= 0 { refs_remove(rs1, opath) } else { rs1 };
                lemma_refs_find_bounds(rs1, opath);
                assert forall|i: int| 0 <= i < rs2.len() implies 0 <= #[trigger] rs2[i].1
                    < s0.commits.len() by {
                    if move_ref && curf >= 0 {
                        let g = refs_find(rs1, opath);
                        if g >= 0 {
                            assert(rs2 == rs1.remove(g));
                            if i < g {
                                assert(rs2[i] == rs1[i]);
                            } else {
                                assert(rs2[i] == rs1[i + 1]);
                            }
                        }
                    }
                }
                assert(self@.refs == rs2);
                assert(self@.commits == s0.commits);
            }
        }
        Ok(())
    }

    /// Binds a reference name to a commit index, replacing any old binding.
    fn refs_bind(&mut self, name: &str, target: usize)
        ensures
            final(self)@ == (StoreV {
                refs: refs_set(old(self)@.refs, name@, target as int),
                ..old(self)@
            }),
    {
        let ghost rd = old(self)@.refs;
        proof {
            lemma_vec_deep(&self.refs);
        }
        let mut i: usize = 0;
        while i < self.refs.len()
            invariant
                0 <= i <= self.refs.len(),
                self@ == old(self)@,
                self.refs@ == old(self).refs@,
                rd == seq_deep(self.refs@),
                self@.refs.len() == self.refs.len(),
                forall|k: int| 0 <= k < i ==> (#[trigger] self@.refs[k]).0 != name@,
            decreases self.refs.len() - i,
        {
            assert(self@.refs[i as int] == (self.refs@[i as int].name@, self.refs@[i
                as int].target as int));
            if str_eq(self.refs[i].name.as_str(), name) {
                proof {
                    lemma_refs_find_at(self@.refs, name@, i as int);
                }
                let ghost before = self.refs@;
                proof {
                    lemma_vec_deep(&self.refs);
                }
                let entry = RefEntry { name: name.to_owned(), target };
                let ghost entryg = entry;
                self.refs[i] = entry;
                proof {
                    assert(rd =~= seq_deep(before));
                    crate::task::lemma_seq_deep_update(before, i as int, entryg);
                    lemma_vec_deep(&self.refs);
                    assert(self@.refs =~= refs_set(rd, name@, target as int));
                }
                return ;
            }
            i = i + 1;
        }
        proof {
            lemma_refs_find_at(self@.refs, name@, self.refs.len() as int);
        }
        let ghost before = self.refs@;
        proof {
            lemma_vec_deep(&self.refs);
        }
        let entry = RefEntry { name: name.to_owned(), target };
        let ghost entryg = entry;
        self.refs.push(entry);
        proof {
            assert(rd =~= seq_deep(before));
            crate::task::lemma_seq_deep_push(before, entryg);
            lemma_vec_deep(&self.refs);
            assert(self@.refs =~= refs_set(rd, name@, target as int));
        }
    }

    /// Removes a reference by name, if it exists.
    fn refs_drop(&mut self, name: &str)
        ensures
            final(self)@ == (StoreV { refs: refs_remove(old(self)@.refs, name@), ..old(self)@ }),
    {
        let ghost rd = old(self)@.refs;
        proof {
            lemma_vec_deep(&self.refs);
        }
        let mut i: usize = 0;
        while i < self.refs.len()
            invariant
                0 <= i <= self.refs.len(),
                self@ == old(self)@,
                self.refs@ == old(self).refs@,
                rd == seq_deep(self.refs@),
                self@.refs.len() == self.refs.len(),
                forall|k: int| 0 <= k < i ==> (#[trigger] self@.refs[k]).0 != name@,
            decreases self.refs.len() - i,
        {
            assert(self@.refs[i as int] == (self.refs@[i as int].name@, self.refs@[i
                as int].target as int));
            if str_eq(self.refs[i].name.as_str(), name) {
                proof {
                    lemma_refs_find_at(self@.refs, name@, i as int);
                }
                let ghost before = self.refs@;
                proof {
                    lemma_vec_deep(&self.refs);
                }
                self.refs.remove(i);
                proof {
                    assert(rd =~= seq_deep(before));
                    crate::task::lemma_seq_deep_remove(before, i as int);
                    lemma_vec_deep(&self.refs);
                    assert(self@.refs =~= refs_remove(rd, name@));
                }
                return ;
            }
            i = i + 1;
        }
        proof {
            lemma_refs_find_at(self@.refs, name@, self.refs.len() as int);
        }
    }
}

/// The greatest task number a tree's entry names hold.
pub open spec fn max_entry_id(t: Seq<(Seq<char>, Seq<char>)>) -> nat
    decreases t.len(),
{
    if t.len() == 0 {
        0
    } else {
        let m = max_entry_id(t.drop_last());
        match spec_dec_id(t.last().0) {
            Some(v) => if v as nat > m {
                v as nat
            } else {
                m
            },
            None => m,
        }
    }
}

/// The id the next created task receives: one past the greatest numeric
/// entry name, or "1" over an absent reference.
pub open spec fn next_id_of(s: StoreV) -> Seq<char> {
    dec_rec((max_entry_id(current_tree(s)) + 1) as nat)
}

/// The id `create_task` stores the task under.
pub open spec fn create_id(s: StoreV, t: TaskV) -> Seq<char> {
    match t.id {
        Some(v) => v,
        None => next_id_of(s),
    }
}

/// What `create_task` leaves behind: both blobs written over the current
/// tree, and a commit on the task reference.
pub open spec fn create_transition(s: StoreV, t: TaskV) -> StoreV {
    let id = t.id->Some_0;
    let tree1 = props_set(
        props_set(current_tree(s), id, ser_task(t)),
        "action-"@ + id,
        ser_action(TaskAction::TaskCreate),
    );
    push_commit(s, tree1, tip_of(s), "Create task "@ + id)
}

impl Clone for TreeEntry {
    fn clone(&self) -> (r: Self)
        ensures
            r == *self,
    {
        TreeEntry { name: self.name.clone(), blob: self.blob.clone() }
    }
}

/// Clones a tree to an equal value.
fn clone_tree(t: &Vec<TreeEntry>) -> (r: Vec<TreeEntry>)
    ensures
        r@ == t@,
        r.deep_view() == t.deep_view(),
{
    let mut r: Vec<TreeEntry> = Vec::new();
    let mut i: usize = 0;
    while i < t.len()
        invariant
            0 <= i <= t.len(),
            r@ =~= t@.take(i as int),
        decreases t.len() - i,
    {
        r.push(t[i].clone());
        proof {
            assert(r@ =~= t@.take(i + 1));
        }
        i = i + 1;
    }
    proof {
        assert(t@.take(t.len() as int) =~= t@);
    }
    r
}

/// The index of the first entry with this name, or none.
fn tree_index(t: &Vec<TreeEntry>, name: &str) -> (r: Option<usize>)
    ensures
        r matches Some(i) ==> props_find(t.deep_view(), name@) == i as int && i < t@.len(),
        r is None ==> props_find(t.deep_view(), name@) == -1,
{
    let mut i: usize = 0;
    while i < t.len()
        invariant
            0 <= i <= t.len(),
            t.deep_view().len() == t.len(),
            forall|k: int| 0 <= k < i ==> (#[trigger] t.deep_view()[k]).0 != name@,
        decreases t.len() - i,
    {
        assert(t.deep_view()[i as int] == (t@[i as int].name@, t@[i as int].blob@));
        if str_eq(t[i].name.as_str(), name) {
            proof {
                crate::task::lemma_props_find_at(t.deep_view(), name@, i as int);
            }
            return Some(i);
        }
        i = i + 1;
    }
    proof {
        crate::task::lemma_props_find_at(t.deep_view(), name@, t.len() as int);
    }
    None
}

/// Writes a blob under a name, replacing any entry that bore it.
fn tree_insert(t: &mut Vec<TreeEntry>, name: String, blob: String)
    ensures
        final(t).deep_view() == props_set(old(t).deep_view(), name@, blob@),
{
    let ghost td = old(t).deep_view();
    proof {
        lemma_vec_deep(t);
    }
    match tree_index(t, name.as_str()) {
        Some(i) => {
            proof {
                crate::task::lemma_props_find_bounds(td, name@);
            }
            let ghost before = t@;
            let entry = TreeEntry { name, blob };
            let ghost entryg = entry;
            t[i] = entry;
            proof {
                assert(td =~= seq_deep(before));
                crate::task::lemma_seq_deep_update(before, i as int, entryg);
                lemma_vec_deep(t);
                assert(t.deep_view() =~= props_set(td, entryg.name@, entryg.blob@));
            }
        },
        None => {
            let ghost before = t@;
            let entry = TreeEntry { name, blob };
            let ghost entryg = entry;
            t.push(entry);
            proof {
                assert(td =~= seq_deep(before));
                crate::task::lemma_seq_deep_push(before, entryg);
                lemma_vec_deep(t);
                assert(t.deep_view() =~= props_set(td, entryg.name@, entryg.blob@));
            }
        },
    }
}

/// Removes the entry under a name; says whether it was there.
fn tree_remove(t: &mut Vec<TreeEntry>, name: &str) -> (r: bool)
    ensures
        r == props_has(old(t).deep_view(), name@),
        final(t).deep_view() == props_remove(old(t).deep_view(), name@),
{
    let ghost td = old(t).deep_view();
    proof {
        lemma_vec_deep(t);
    }
    match tree_index(t, name) {
        Some(i) => {
            proof {
                crate::task::lemma_props_find_bounds(td, name@);
            }
            let ghost before = t@;
            t.remove(i);
            proof {
                assert(td =~= seq_deep(before));
                crate::task::lemma_seq_deep_remove(before, i as int);
                lemma_vec_deep(t);
                assert(t.deep_view() =~= props_remove(td, name@));
            }
            true
        },
        None => false,
    }
}

/// The remote URLs kept by `list_remotes`: all of them, or those under the
/// filtered name.
pub open spec fn remotes_filtered(rs: Seq<(Seq<char>, Seq<char>)>, f: Option<Seq<char>>) -> Seq<
    Seq<char>,
>
    decreases rs.len(),
{
    if rs.len() == 0 {
        Seq::<Seq<char>>::empty()
    } else {
        let head = rs.drop_last();
        let last = rs.last();
        let keep = match f {
            None => true,
            Some(n) => n == last.0,
        };
        if keep {
            remotes_filtered(head, f).push(last.1)
        } else {
            remotes_filtered(head, f)
        }
    }
}

pub proof fn lemma_remotes_filtered_snoc(rs: Seq<(Seq<char>, Seq<char>)>, i: int, f: Option<
    Seq<char>,
>)
    requires
        0 <= i < rs.len(),
    ensures
        remotes_filtered(rs.take(i + 1), f) == (if (match f {
            None => true,
            Some(n) => n == rs[i].0,
        }) {
            remotes_filtered(rs.take(i), f).push(rs[i].1)
        } else {
            remotes_filtered(rs.take(i), f)
        }),
{
    assert(rs.take(i + 1).drop_last() =~= rs.take(i));
    assert(rs.take(i + 1).last() == rs[i]);
}

impl TaskContext {
    /// The error for an absent task reference.
    fn ref_missing_err(&self) -> (r: String)
        ensures
            r@ == "reference '"@ + ref_path_of(self@) + "' was not found"@,
    {
        let path = self.get_ref_path();
        String::from_str("reference '").concat(path.as_str()).concat("' was not found")
    }

    /// The commit index the task reference points at, when it exists.
    fn task_ref_tip(&self) -> (r: Option<usize>)
        ensures
            r matches Some(t) ==> tip_of(self@) == Some(t as int),
            r is None ==> tip_of(self@) is None,
            store_wf(self@) ==> (r matches Some(t) ==> (t as int) < self@.commits.len()),
    {
        let path = self.get_ref_path();
        let r = self.ref_target(path.as_str());
        proof {
            lemma_refs_find_bounds(self@.refs, ref_path_of(self@));
            let f = refs_find(self@.refs, ref_path_of(self@));
            if store_wf(self@) && f >= 0 {
                assert(0 <= self@.refs[f].1 < self@.commits.len());
            }
        }
        r
    }

    /// Appends a commit holding `tree` and moves the task reference to it.
    fn commit_onto(&mut self, tree: Vec<TreeEntry>, parent: Option<usize>, message: String)
        ensures
            final(self)@ == push_commit(old(self)@, tree.deep_view(), (match parent {
                Some(p) => Some(p as int),
                None => None,
            }), message@),
            store_wf(old(self)@) && (parent matches Some(p) ==> p < old(self)@.commits.len())
                ==> store_wf(final(self)@),
    {
        let ghost s0 = old(self)@;
        let path = self.get_ref_path();
        let target = self.commits.len();
        let ghost before = self.commits@;
        proof {
            lemma_vec_deep(&self.commits);
        }
        let rec = CommitRec { tree, parent, message };
        let ghost recg = rec;
        self.commits.push(rec);
        proof {
            assert(s0.commits =~= seq_deep(before));
            crate::task::lemma_seq_deep_push(before, recg);
            lemma_vec_deep(&self.commits);
            assert(self@.commits =~= s0.commits.push(recg@));
        }
        self.refs_bind(path.as_str(), target);
        proof {
            assert(final(self)@ == push_commit(s0, recg@.tree, recg@.parent, recg@.message));
            if store_wf(s0) && (match parent {
                Some(p) => (p as int) < s0.commits.len(),
                None => true,
            }) {
                lemma_refs_find_bounds(s0.refs, path@);
                let f = refs_find(s0.refs, path@);
                assert forall|i: int| 0 <= i < self@.refs.len() implies 0 <= #[trigger] self@.refs[
                    i].1 < self@.commits.len() by {
                    if f >= 0 {
                        assert(self@.refs == s0.refs.update(f, (path@, target as int)));
                        if i != f {
                            assert(self@.refs[i] == s0.refs[i]);
                            assert(0 <= s0.refs[i].1 < s0.commits.len());
                        }
                    } else {
                        assert(self@.refs == s0.refs.push((path@, target as int)));
                        if i < s0.refs.len() {
                            assert(self@.refs[i] == s0.refs[i]);
                            assert(0 <= s0.refs[i].1 < s0.commits.len());
                        }
                    }
                }
                assert forall|i: int|
                    0 <= i < self@.commits.len() implies (#[trigger] self@.commits[i].parent
                    matches Some(p) ==> 0 <= p < i) by {
                    if i < s0.commits.len() {
                        assert(self@.commits[i] == s0.commits[i]);
                    }
                }
            }
        }
    }

    /// One past the greatest numeric entry name in the current tree; an
    /// error when the task reference is absent.
    pub fn get_next_id(&self) -> (r: Result<String, String>)
        requires
            store_wf(self@),
        ensures
            r is Ok <==> tip_of(self@) is Some,
            r matches Ok(v) ==> v@ == next_id_of(self@),
            r matches Err(e) ==> e@ == "reference '"@ + ref_path_of(self@) + "' was not found"@,
    {
        match self.task_ref_tip() {
            None => Err(self.ref_missing_err()),
            Some(ci) => {
                proof {
                    assert(self@.commits[ci as int] == self.commits@[ci as int]@);
                }
                let tree = &self.commits[ci].tree;
                let ghost td = current_tree(self@);
                proof {
                    assert(td == tree.deep_view());
                }
                let mut best: u64 = 0;
                let mut i: usize = 0;
                while i < tree.len()
                    invariant
                        0 <= i <= tree.len(),
                        td == tree.deep_view(),
                        td.len() == tree.len(),
                        best == max_entry_id(td.take(i as int)),
                        best <= 0x7fff_ffff_ffff_ffff,
                    decreases tree.len() - i,
                {
                    assert(td[i as int] == (tree@[i as int].name@, tree@[i as int].blob@));
                    match parse_dec_id(tree[i].name.as_str()) {
                        Some(v) => {
                            if v > best {
                                best = v;
                            }
                        },
                        None => {},
                    }
                    proof {
                        assert(td.take(i + 1).drop_last() =~= td.take(i as int));
                        assert(td.take(i + 1).last() == td[i as int]);
                    }
                    i = i + 1;
                }
                proof {
                    assert(td.take(td.len() as int) =~= td);
                }
                Ok(u64_to_dec(best + 1))
            },
        }
    }

    /// Persists a task: assigns the next id when none is set, writes the
    /// task blob and a `TaskCreate` action blob over the current tree, and
    /// commits, with the prior tip as sole parent when the reference
    /// existed.
    pub fn create_task(&mut self, task: Task) -> (r: Result<Task, String>)
        requires
            store_wf(old(self)@),
        ensures
            r is Ok,
            store_wf(final(self)@),
            r matches Ok(t2) ==> t2@ == (TaskV {
                id: Some(create_id(old(self)@, task@)),
                ..task@
            }) && final(self)@ == create_transition(old(self)@, t2@),
    {
        let ghost s0 = old(self)@;
        let ghost t_in = task@;
        let tip = self.task_ref_tip();
        let mut task = task;
        let has_id = match &task.id {
            Some(_) => true,
            None => false,
        };
        if !has_id {
            let id = match self.get_next_id() {
                Ok(v) => v,
                Err(_) => {
                    let one = "1".to_owned();
                    proof {
                        reveal_strlit("1");
                        assert(one@ =~= dec_rec(1));
                        assert(current_tree(s0) =~= Seq::<(Seq<char>, Seq<char>)>::empty());
                        assert(max_entry_id(current_tree(s0)) == 0);
                    }
                    one
                },
            };
            task.set_id(id);
        }
        proof {
            assert(task@ == (TaskV { id: Some(create_id(s0, t_in)), ..t_in }));
        }
        let id_str: String = match &task.id {
            Some(v) => v.clone(),
            None => String::new(),
        };
        let blob = encode_task(&task);
        let ablob = encode_action(&TaskAction::TaskCreate);
        let mut tree: Vec<TreeEntry> = match tip {
            Some(ci) => {
                proof {
                    assert(self@.commits[ci as int] == self.commits@[ci as int]@);
                }
                clone_tree(&self.commits[ci].tree)
            },
            None => Vec::new(),
        };
        proof {
            assert(tree.deep_view() =~= current_tree(s0));
        }
        tree_insert(&mut tree, id_str.clone(), blob);
        tree_insert(&mut tree, String::from_str("action-").concat(id_str.as_str()), ablob);
        let msg = String::from_str("Create task ").concat(id_str.as_str());
        self.commit_onto(tree, tip, msg);
        proof {
            assert(final(self)@ == create_transition(s0, task@));
        }
        Ok(task)
    }
}

/// What `update_task_v2` leaves behind: the task blob rewritten, the action
/// blob rewritten when an action is given, and a commit on the prior tip.
pub open spec fn update_transition(s: StoreV, t: TaskV, action: Option<TaskAction>) -> StoreV {
    let id = t.id->Some_0;
    let tree1 = props_set(current_tree(s), id, ser_task(t));
    let tree2 = match action {
        Some(a) => props_set(tree1, "action-"@ + id, ser_action(a)),
        None => tree1,
    };
    push_commit(s, tree2, tip_of(s), "Update task "@ + id)
}

/// What `clear_tasks` leaves behind: an empty tree committed on the prior
/// tip.
pub open spec fn clear_transition(s: StoreV) -> StoreV {
    push_commit(s, Seq::<(Seq<char>, Seq<char>)>::empty(), tip_of(s), "Clear tasks"@)
}

/// The task stored under `id`, decoded, when the reference, the entry and
/// the decoding all succeed.
pub open spec fn find_decoded(s: StoreV, id: Seq<char>) -> Option<TaskV> {
    match tip_of(s) {
        None => None,
        Some(ci) => {
            let t = s.commits[ci].tree;
            let e = props_find(t, id);
            if e >= 0 {
                parse_task(t[e].1)
            } else {
                None
            }
        },
    }
}

impl TaskContext {
    /// Rewrites a task's blob and, when an action is given, its action
    /// blob, and commits on the prior tip; an error when the task reference
    /// is absent.
    pub fn update_task_v2(&mut self, task: Task, action: Option<TaskAction>) -> (r: Result<
        String,
        String,
    >)
        requires
            store_wf(old(self)@),
            task@.id is Some,
        ensures
            store_wf(final(self)@),
            r is Ok <==> tip_of(old(self)@) is Some,
            r matches Ok(v) ==> v@ == task@.id->Some_0 && final(self)@ == update_transition(
                old(self)@,
                task@,
                action,
            ),
            r is Err ==> final(self)@ == old(self)@ && (r matches Err(e) ==> e@ == "reference '"@
                + ref_path_of(old(self)@) + "' was not found"@),
    {
        let ghost s0 = old(self)@;
        let tip = self.task_ref_tip();
        match tip {
            None => Err(self.ref_missing_err()),
            Some(ci) => {
                proof {
                    assert(self@.commits[ci as int] == self.commits@[ci as int]@);
                }
                let id_str: String = match &task.id {
                    Some(v) => v.clone(),
                    None => String::new(),
                };
                let blob = encode_task(&task);
                let mut tree = clone_tree(&self.commits[ci].tree);
                proof {
                    assert(tree.deep_view() =~= current_tree(s0));
                }
                tree_insert(&mut tree, id_str.clone(), blob);
                match &action {
                    Some(a) => {
                        let ablob = encode_action(a);
                        tree_insert(
                            &mut tree,
                            String::from_str("action-").concat(id_str.as_str()),
                            ablob,
                        );
                    },
                    None => {},
                }
                let msg = String::from_str("Update task ").concat(id_str.as_str());
                self.commit_onto(tree, Some(ci), msg);
                proof {
                    assert(final(self)@ == update_transition(s0, task@, action));
                }
                Ok(id_str)
            },
        }
    }

    /// `update_task_v2` without an action: the prior action blob is kept.
    pub fn update_task(&mut self, task: Task) -> (r: Result<String, String>)
        requires
            store_wf(old(self)@),
            task@.id is Some,
        ensures
            store_wf(final(self)@),
            r is Ok <==> tip_of(old(self)@) is Some,
            r matches Ok(v) ==> v@ == task@.id->Some_0 && final(self)@ == update_transition(
                old(self)@,
                task@,
                None,
            ),
            r is Err ==> final(self)@ == old(self)@,
    {
        self.update_task_v2(task, None)
    }

    /// Empties the task tree and commits; returns how many tasks the tree
    /// held, two entries each.
    pub fn clear_tasks(&mut self) -> (r: Result<u64, String>)
        requires
            store_wf(old(self)@),
        ensures
            store_wf(final(self)@),
            r is Ok <==> tip_of(old(self)@) is Some,
            r matches Ok(n) ==> n == current_tree(old(self)@).len() / 2 && final(self)@
                == clear_transition(old(self)@),
            r is Err ==> final(self)@ == old(self)@ && (r matches Err(e) ==> e@ == "reference '"@
                + ref_path_of(old(self)@) + "' was not found"@),
    {
        let ghost s0 = old(self)@;
        let tip = self.task_ref_tip();
        match tip {
            None => Err(self.ref_missing_err()),
            Some(ci) => {
                proof {
                    assert(self@.commits[ci as int] == self.commits@[ci as int]@);
                }
                let count = (self.commits[ci].tree.len() / 2) as u64;
                let tree: Vec<TreeEntry> = Vec::new();
                proof {
                    assert(tree.deep_view() =~= Seq::<(Seq<char>, Seq<char>)>::empty());
                    assert(self.commits@[ci as int].tree.deep_view().len() == self.commits@[ci
                        as int].tree.len());
                }
                let msg = "Clear tasks".to_owned();
                self.commit_onto(tree, Some(ci), msg);
                proof {
                    assert(final(self)@ == clear_transition(s0));
                }
                Ok(count)
            },
        }
    }

    /// The stored task under `id`: absent when the reference or the entry
    /// is absent; an error when the blob does not decode.
    pub fn find_task(&self, id: &str) -> (r: Result<Option<Task>, String>)
        requires
            store_wf(self@),
        ensures
            tip_of(self@) is None ==> (r matches Ok(t) && t is None),
            tip_of(self@) matches Some(ci) ==> {
                let t = self@.commits[ci].tree;
                let e = props_find(t, id@);
                &&& e == -1 ==> (r matches Ok(o) && o is None)
                &&& e >= 0 ==> (match parse_task(t[e].1) {
                    Some(tv) => r matches Ok(o) && o matches Some(task) && task@ == tv,
                    None => r is Err,
                })
            },
            r matches Ok(o) ==> (o matches Some(task) ==> find_decoded(self@, id@) == Some(
                task@,
            )),
    {
        match self.task_ref_tip() {
            None => Ok(None),
            Some(ci) => {
                proof {
                    assert(self@.commits[ci as int] == self.commits@[ci as int]@);
                }
                let tree = &self.commits[ci].tree;
                match tree_index(tree, id) {
                    None => Ok(None),
                    Some(e) => {
                        proof {
                            crate::task::lemma_props_find_bounds(tree.deep_view(), id@);
                            assert(tree.deep_view()[e as int] == (tree@[e as int].name@, tree@[e
                                as int].blob@));
                        }
                        match decode_task(tree[e].blob.as_str()) {
                            Some(t) => Ok(Some(t)),
                            None => Err(
                                String::from_str("stored blob for task '").concat(id).concat(
                                    "' does not hold a task",
                                ),
                            ),
                        }
                    },
                }
            },
        }
    }
}

/// The tree after removing each id in turn; nothing when one is absent.
pub open spec fn remove_all(t: Seq<(Seq<char>, Seq<char>)>, ids: Seq<Seq<char>>) -> Option<
    Seq<(Seq<char>, Seq<char>)>,
>
    decreases ids.len(),
{
    if ids.len() == 0 {
        Some(t)
    } else if props_has(t, ids[0]) {
        remove_all(props_remove(t, ids[0]), ids.drop_first())
    } else {
        None
    }
}

/// The numeric value of a decimal id.
pub open spec fn dec_id_val(v: Seq<char>) -> u64 {
    spec_dec_id(v)->Some_0
}

/// The numeric values of a list of decimal ids.
pub open spec fn ids_values(ids: Seq<Seq<char>>) -> Seq<u64>
    decreases ids.len(),
{
    if ids.len() == 0 {
        Seq::<u64>::empty()
    } else {
        ids_values(ids.drop_last()).push(dec_id_val(ids.last()))
    }
}

/// `x` inserted before the first greater element.
pub open spec fn insert_sorted(x: u64, s: Seq<u64>) -> Seq<u64>
    decreases s.len(),
{
    if s.len() == 0 {
        seq![x]
    } else if x < s[0] {
        seq![x] + s
    } else {
        seq![s[0]] + insert_sorted(x, s.drop_first())
    }
}

/// The ascending rearrangement insertion sort produces.
pub open spec fn sort_ids(s: Seq<u64>) -> Seq<u64>
    decreases s.len(),
{
    if s.len() == 0 {
        Seq::<u64>::empty()
    } else {
        insert_sorted(s.last(), sort_ids(s.drop_last()))
    }
}

/// The ids of a delete message: decimal values joined by a comma and a
/// space.
pub open spec fn join_ids(s: Seq<u64>) -> Seq<char>
    decreases s.len(),
{
    if s.len() == 0 {
        Seq::<char>::empty()
    } else if s.len() == 1 {
        dec_rec(s[0] as nat)
    } else {
        join_ids(s.drop_last()) + ", "@ + dec_rec(s.last() as nat)
    }
}

/// What `delete_tasks` leaves behind: the entries removed and a commit
/// whose message lists the ids in ascending numeric order.
pub open spec fn delete_transition(s: StoreV, ids: Seq<Seq<char>>) -> StoreV {
    let t2 = remove_all(current_tree(s), ids)->Some_0;
    push_commit(
        s,
        t2,
        tip_of(s),
        "Delete task "@ + join_ids(sort_ids(ids_values(ids))),
    )
}

/// Where a scan for the insertion point lands, the spec insertion agrees.
pub proof fn lemma_insert_sorted_at(x: u64, s: Seq<u64>, j: int)
    requires
        0 <= j <= s.len(),
        forall|k: int| 0 <= k < j ==> !(x < #[trigger] s[k]),
        j < s.len() ==> x < s[j],
    ensures
        insert_sorted(x, s) == s.take(j) + seq![x] + s.skip(j),
    decreases s.len(),
{
    if s.len() == 0 {
        assert(insert_sorted(x, s) =~= s.take(j) + seq![x] + s.skip(j));
    } else if j == 0 {
        assert(insert_sorted(x, s) =~= s.take(0) + seq![x] + s.skip(0));
    } else {
        assert(!(x < s[0]));
        assert(forall|k: int| 0 <= k < s.drop_first().len() ==> #[trigger] s.drop_first()[k] == s[k
            + 1]);
        lemma_insert_sorted_at(x, s.drop_first(), j - 1);
        assert(insert_sorted(x, s) == seq![s[0]] + insert_sorted(x, s.drop_first()));
        assert(insert_sorted(x, s) =~= s.take(j) + seq![x] + s.skip(j));
    }
}

/// Inserts a value into an ascending list, keeping it ascending.
fn vec_insert_sorted(v: &mut Vec<u64>, x: u64)
    ensures
        final(v)@ == insert_sorted(x, old(v)@),
{
    let mut j: usize = 0;
    while j < v.len()
        invariant
            0 <= j <= v.len(),
            v@ == old(v)@,
            forall|k: int| 0 <= k < j ==> !(x < #[trigger] v@[k]),
        decreases v.len() - j,
    {
        if x < v[j] {
            proof {
                lemma_insert_sorted_at(x, v@, j as int);
            }
            v.insert(j, x);
            proof {
                assert(v@ =~= old(v)@.take(j as int) + seq![x] + old(v)@.skip(j as int));
            }
            return ;
        }
        j = j + 1;
    }
    proof {
        lemma_insert_sorted_at(x, v@, v@.len() as int);
    }
    v.push(x);
    proof {
        assert(old(v)@.take(old(v)@.len() as int) =~= old(v)@);
        assert(old(v)@.skip(old(v)@.len() as int) =~= Seq::<u64>::empty());
        assert(v@ =~= old(v)@.take(old(v)@.len() as int) + seq![x] + old(v)@.skip(
            old(v)@.len() as int,
        ));
    }
}

/// Sorts values ascending, as the delete message needs them.
fn sort_u64(v: &Vec<u64>) -> (r: Vec<u64>)
    ensures
        r@ == sort_ids(v@),
{
    let mut out: Vec<u64> = Vec::new();
    let mut i: usize = 0;
    while i < v.len()
        invariant
            0 <= i <= v.len(),
            out@ == sort_ids(v@.take(i as int)),
        decreases v.len() - i,
    {
        vec_insert_sorted(&mut out, v[i]);
        proof {
            assert(v@.take(i + 1).drop_last() =~= v@.take(i as int));
            assert(v@.take(i + 1).last() == v@[i as int]);
        }
        i = i + 1;
    }
    proof {
        assert(v@.take(v@.len() as int) =~= v@);
    }
    out
}

impl TaskContext {
    /// Removes the entries named by `ids` and commits; the message lists
    /// the ids sorted ascending numerically.  An error when the reference
    /// or one of the entries is absent.
    pub fn delete_tasks(&mut self, ids: &Vec<String>) -> (r: Result<(), String>)
        requires
            store_wf(old(self)@),
            forall|k: int| 0 <= k < ids@.len() ==> spec_dec_id((#[trigger] ids@[k])@) is Some,
        ensures
            store_wf(final(self)@),
            r is Ok <==> (tip_of(old(self)@) is Some && remove_all(
                current_tree(old(self)@),
                ids.deep_view(),
            ) is Some),
            r is Ok ==> final(self)@ == delete_transition(old(self)@, ids.deep_view()),
            r is Err ==> final(self)@ == old(self)@,
    {
        let ghost s0 = old(self)@;
        let ghost idsd = ids.deep_view();
        proof {
            lemma_vec_deep(ids);
            assert(forall|k: int| 0 <= k < idsd.len() ==> idsd[k] == (#[trigger] ids@[k])@);
        }
        let tip = self.task_ref_tip();
        match tip {
            None => Err(self.ref_missing_err()),
            Some(ci) => {
                proof {
                    assert(self@.commits[ci as int] == self.commits@[ci as int]@);
                }
                let mut tree = clone_tree(&self.commits[ci].tree);
                let ghost ct = current_tree(s0);
                proof {
                    assert(tree.deep_view() =~= ct);
                    assert(idsd.skip(0) =~= idsd);
                }
                let mut i: usize = 0;
                while i < ids.len()
                    invariant
                        0 <= i <= ids.len(),
                        self@ == s0,
                        s0 == old(self)@,
                        store_wf(s0),
                        ct == current_tree(s0),
                        idsd == ids.deep_view(),
                        idsd.len() == ids.len(),
                        forall|k: int| 0 <= k < idsd.len() ==> idsd[k] == (#[trigger] ids@[k])@,
                        remove_all(ct, idsd) == remove_all(tree.deep_view(), idsd.skip(i as int)),
                    decreases ids.len() - i,
                {
                    let ghost before_deep = tree.deep_view();
                    let hit = tree_remove(&mut tree, ids[i].as_str());
                    proof {
                        assert(idsd.skip(i as int)[0] == idsd[i as int]);
                        assert(idsd.skip(i as int).drop_first() =~= idsd.skip(i + 1));
                    }
                    if !hit {
                        proof {
                            assert(remove_all(before_deep, idsd.skip(i as int)) is None);
                        }
                        return Err(
                            String::from_str("entry '").concat(ids[i].as_str()).concat(
                                "' was not found in the task tree",
                            ),
                        );
                    }
                    i = i + 1;
                }
                proof {
                    assert(idsd.skip(idsd.len() as int) =~= Seq::<Seq<char>>::empty());
                    assert(remove_all(ct, idsd) == Some(tree.deep_view()));
                }
                let mut vals: Vec<u64> = Vec::new();
                let mut i: usize = 0;
                while i < ids.len()
                    invariant
                        0 <= i <= ids.len(),
                        self@ == s0,
                        store_wf(s0),
                        idsd.len() == ids.len(),
                        forall|k: int| 0 <= k < idsd.len() ==> idsd[k] == (#[trigger] ids@[k])@,
                        forall|k: int| 0 <= k < idsd.len() ==> spec_dec_id(idsd[k]) is Some,
                        remove_all(ct, idsd) == Some(tree.deep_view()),
                        vals@ == ids_values(idsd.take(i as int)),
                    decreases ids.len() - i,
                {
                    let v = match parse_dec_id(ids[i].as_str()) {
                        Some(v) => v,
                        None => 0,
                    };
                    vals.push(v);
                    proof {
                        assert(idsd.take(i + 1).drop_last() =~= idsd.take(i as int));
                        assert(idsd.take(i + 1).last() == idsd[i as int]);
                    }
                    i = i + 1;
                }
                proof {
                    assert(idsd.take(idsd.len() as int) =~= idsd);
                }
                let sorted = sort_u64(&vals);
                let mut msg = "Delete task ".to_owned();
                let ghost head = msg@;
                let mut i: usize = 0;
                while i < sorted.len()
                    invariant
                        0 <= i <= sorted.len(),
                        self@ == s0,
                        store_wf(s0),
                        remove_all(ct, idsd) == Some(tree.deep_view()),
                        msg@ == head + join_ids(sorted@.take(i as int)),
                    decreases sorted.len() - i,
                {
                    if i > 0 {
                        msg.append(", ");
                    }
                    let part = u64_to_dec(sorted[i]);
                    msg.append(part.as_str());
                    proof {
                        assert(sorted@.take(i + 1).drop_last() =~= sorted@.take(i as int));
                        assert(sorted@.take(i + 1).last() == sorted@[i as int]);
                        assert(msg@ =~= head + join_ids(sorted@.take(i + 1)));
                    }
                    i = i + 1;
                }
                proof {
                    assert(sorted@.take(sorted@.len() as int) =~= sorted@);
                }
                self.commit_onto(tree, Some(ci), msg);
                proof {
                    assert(final(self)@ == delete_transition(s0, idsd));
                }
                Ok(())
            },
        }
    }
}

/// The tasks a tree holds: every entry whose name is a decimal id, decoded
/// in tree order; nothing when one such blob does not decode.
pub open spec fn decode_entries(t: Seq<(Seq<char>, Seq<char>)>) -> Option<Seq<TaskV>>
    decreases t.len(),
{
    if t.len() == 0 {
        Some(Seq::<TaskV>::empty())
    } else {
        match decode_entries(t.drop_last()) {
            None => None,
            Some(l) => {
                let e = t.last();
                if spec_dec_id(e.0) is Some {
                    match parse_task(e.1) {
                        Some(tv) => Some(l.push(tv)),
                        None => None,
                    }
                } else {
                    Some(l)
                }
            },
        }
    }
}

/// A prefix that fails to decode fails the whole tree.
pub proof fn lemma_decode_entries_prefix(t: Seq<(Seq<char>, Seq<char>)>, i: int)
    requires
        0 <= i <= t.len(),
        decode_entries(t.take(i)) is None,
    ensures
        decode_entries(t) is None,
    decreases t.len() - i,
{
    if i < t.len() {
        assert(t.take(i + 1).drop_last() =~= t.take(i));
        lemma_decode_entries_prefix(t, i + 1);
    } else {
        assert(t.take(i) =~= t);
    }
}

/// The audit elements along the first-parent chain from `ci`, newest first,
/// at most `fuel` of them; nothing when an action blob does not decode.
pub open spec fn history_rec(s: StoreV, ci: int, id: Seq<char>, fuel: nat) -> Option<
    Seq<Option<TaskAction>>,
>
    decreases fuel,
{
    if fuel == 0 {
        Some(Seq::<Option<TaskAction>>::empty())
    } else {
        let t = s.commits[ci].tree;
        let e = props_find(t, "action-"@ + id);
        let elem_opt: Option<Option<TaskAction>> = if e >= 0 {
            match parse_action(t[e].1) {
                Some(a) => Some(Some(a)),
                None => None,
            }
        } else {
            Some(None)
        };
        match elem_opt {
            None => None,
            Some(elem) => match s.commits[ci].parent {
                None => Some(seq![elem]),
                Some(p) => match history_rec(s, p, id, (fuel - 1) as nat) {
                    None => None,
                    Some(rest) => Some(seq![elem] + rest),
                },
            },
        }
    }
}

impl TaskContext {
    /// Every task in the current tree, in tree order; an error when the
    /// reference is absent or a blob does not decode.
    #[verifier::rlimit(100)]
    pub fn list_tasks(&self) -> (r: Result<Vec<Task>, String>)
        requires
            store_wf(self@),
        ensures
            r is Ok <==> (tip_of(self@) is Some && decode_entries(current_tree(self@)) is Some),
            r matches Ok(l) ==> Some(l.deep_view()) == decode_entries(current_tree(self@)),
            tip_of(self@) is None ==> (r matches Err(e) && e@ == "reference '"@ + ref_path_of(
                self@,
            ) + "' was not found"@),
    {
        match self.task_ref_tip() {
            None => Err(self.ref_missing_err()),
            Some(ci) => {
                let ghost s = self@;
                proof {
                    assert(self@.commits[ci as int] == self.commits@[ci as int]@);
                }
                let tree = &self.commits[ci].tree;
                let ghost td = current_tree(self@);
                proof {
                    assert(td == tree.deep_view());
                }
                let mut out: Vec<Task> = Vec::new();
                let mut i: usize = 0;
                while i < tree.len()
                    invariant
                        0 <= i <= tree.len(),
                        s == self@,
                        tip_of(s) == Some(ci as int),
                        td == current_tree(s),
                        td == tree.deep_view(),
                        td.len() == tree.len(),
                        decode_entries(td.take(i as int)) == Some(out.deep_view()),
                    decreases tree.len() - i,
                {
                    assert(td[i as int] == (tree@[i as int].name@, tree@[i as int].blob@));
                    proof {
                        assert(td.take(i + 1).drop_last() =~= td.take(i as int));
                        assert(td.take(i + 1).last() == td[i as int]);
                    }
                    let is_task = match parse_dec_id(tree[i].name.as_str()) {
                        Some(_) => true,
                        None => false,
                    };
                    if is_task {
                        match decode_task(tree[i].blob.as_str()) {
                            Some(t) => {
                                let ghost before = out@;
                                proof {
                                    lemma_vec_deep(&out);
                                }
                                let ghost tg = t;
                                out.push(t);
                                proof {
                                    crate::task::lemma_seq_deep_push(before, tg);
                                    lemma_vec_deep(&out);
                                    assert(out.deep_view() =~= seq_deep(before).push(tg@));
                                }
                            },
                            None => {
                                proof {
                                    assert(decode_entries(td.take(i + 1)) is None);
                                    lemma_decode_entries_prefix(td, i + 1);
                                }
                                return Err(
                                    String::from_str("stored blob for entry '").concat(
                                        tree[i].name.as_str(),
                                    ).concat("' does not hold a task"),
                                );
                            },
                        }
                    }
                    i = i + 1;
                }
                proof {
                    assert(td.take(td.len() as int) =~= td);
                }
                Ok(out)
            },
        }
    }

    /// The audit trail of a task: up to ten actions along the first-parent
    /// chain, oldest first; an entry is absent where a commit carried no
    /// action for the task.
    pub fn get_task_history(&self, id: &str) -> (r: Result<Vec<Option<TaskAction>>, String>)
        requires
            store_wf(self@),
        ensures
            tip_of(self@) is None ==> (r matches Err(e) && e@ == "reference '"@ + ref_path_of(
                self@,
            ) + "' was not found"@),
            tip_of(self@) matches Some(ci) ==> {
                match history_rec(self@, ci, id@, 10) {
                    Some(l) => r matches Ok(v) && v@ == l.reverse(),
                    None => r is Err,
                }
            },
    {
        let ghost s = self@;
        match self.task_ref_tip() {
            None => Err(self.ref_missing_err()),
            Some(tip) => {
                let ghost ci0 = tip as int;
                let aname = String::from_str("action-").concat(id);
                let mut acc: Vec<Option<TaskAction>> = Vec::new();
                let mut cur: usize = tip;
                let mut counter: u64 = 0;
                let ghost target = history_rec(s, ci0, id@, 10);
                proof {
                    assert(acc@ =~= Seq::<Option<TaskAction>>::empty());
                }
                loop
                    invariant_except_break
                        (match history_rec(s, cur as int, id@, (10 - counter) as nat) {
                            Some(t) => target == Some(acc@ + t),
                            None => target is None,
                        }),
                    invariant
                        s == self@,
                        store_wf(s),
                        0 <= counter <= 10,
                        0 <= cur < s.commits.len(),
                        aname@ == "action-"@ + id@,
                        tip_of(s) == Some(ci0),
                        target == history_rec(s, ci0, id@, 10),
                    ensures
                        s == self@,
                        target == history_rec(s, ci0, id@, 10),
                        tip_of(s) == Some(ci0),
                        target == Some(acc@),
                    decreases 10 - counter,
                {
                    if counter >= 10 {
                        proof {
                            assert(history_rec(s, cur as int, id@, 0) == Some(Seq::<
                                Option<TaskAction>,
                            >::empty()));
                            assert(acc@ + Seq::<Option<TaskAction>>::empty() =~= acc@);
                            assert(target == Some(acc@));
                        }
                        break ;
                    }
                    proof {
                        assert(self@.commits[cur as int] == self.commits@[cur as int]@);
                    }
                    let tree = &self.commits[cur].tree;
                    let ghost td = s.commits[cur as int].tree;
                    proof {
                        assert(td == tree.deep_view());
                    }
                    let elem: Option<TaskAction>;
                    match tree_index(tree, aname.as_str()) {
                        None => {
                            elem = None;
                        },
                        Some(e) => {
                            proof {
                                crate::task::lemma_props_find_bounds(td, aname@);
                                assert(td[e as int] == (tree@[e as int].name@, tree@[e
                                    as int].blob@));
                            }
                            match decode_action(tree[e].blob.as_str()) {
                                Some(a) => {
                                    elem = Some(a);
                                },
                                None => {
                                    proof {
                                        assert(history_rec(s, cur as int, id@, (10 - counter)
                                            as nat) is None);
                                        assert(target is None);
                                    }
                                    return Err(
                                        String::from_str(
                                            "stored action blob for task '",
                                        ).concat(id).concat("' does not hold an action"),
                                    );
                                },
                            }
                        },
                    }
                    let ghost acc0 = acc@;
                    acc.push(elem);
                    let parent = self.commits[cur].parent;
                    match parent {
                        None => {
                            proof {
                                assert(history_rec(s, cur as int, id@, (10 - counter) as nat)
                                    == Some(seq![elem]));
                                assert(acc0 + seq![elem] =~= acc@);
                            }
                            break ;
                        },
                        Some(p) => {
                            proof {
                                assert(s.commits[cur as int].parent == Some(p as int));
                                assert(0 <= (p as int) && (p as int) < (cur as int));
                                assert forall|t2: Seq<Option<TaskAction>>|
                                    history_rec(s, p as int, id@, (10 - counter - 1) as nat)
                                        == Some(t2) implies acc0 + (seq![elem] + t2) =~= acc@
                                    + t2 by {}
                            }
                            counter = counter + 1;
                            cur = p;
                        },
                    }
                }
                let mut rev: Vec<Option<TaskAction>> = Vec::new();
                let mut i: usize = acc.len();
                while i > 0
                    invariant
                        0 <= i <= acc.len(),
                        rev@ =~= acc@.skip(i as int).reverse(),
                    decreases i,
                {
                    i = i - 1;
                    rev.push(acc[i]);
                    proof {
                        assert(rev@ =~= acc@.skip(i as int).reverse());
                    }
                }
                proof {
                    assert(acc@.skip(0) =~= acc@);
                }
                Ok(rev)
            },
        }
    }
}

/// The comment list with every comment bearing `id` renamed to `nid`.
pub open spec fn rename_list(l: Seq<crate::task::CommentV>, id: Seq<char>, nid: Seq<char>) -> Seq<
    crate::task::CommentV,
> {
    Seq::new(
        l.len(),
        |i: int|
            if l[i].id == Some(id) {
                crate::task::CommentV { id: Some(nid), ..l[i] }
            } else {
                l[i]
            },
    )
}

/// The task with its matching comments renamed.
pub open spec fn rename_comments_spec(tv: TaskV, id: Seq<char>, nid: Seq<char>) -> TaskV {
    TaskV {
        comments: match tv.comments {
            None => None,
            Some(l) => Some(rename_list(l, id, nid)),
        },
        ..tv
    }
}

impl TaskContext {
    /// Renames a comment of a stored task and persists the task with no
    /// action; a task without comments is left untouched.
    pub fn update_comment_id(&mut self, task_id: &str, id: &str, new_id: &str) -> (r: Result<
        (),
        String,
    >)
        requires
            store_wf(old(self)@),
            find_decoded(old(self)@, task_id@) matches Some(tv) && tv.id is Some,
        ensures
            store_wf(final(self)@),
            r is Ok,
            (find_decoded(old(self)@, task_id@)->Some_0).comments is None ==> final(self)@ == old(
                self,
            )@,
            (find_decoded(old(self)@, task_id@)->Some_0).comments is Some ==> final(self)@
                == update_transition(
                old(self)@,
                rename_comments_spec(find_decoded(old(self)@, task_id@)->Some_0, id@, new_id@),
                None,
            ),
    {
        let ghost s0 = old(self)@;
        let ghost tv = find_decoded(s0, task_id@)->Some_0;
        let found = match self.find_task(task_id) {
            Ok(Some(t)) => t,
            _ => {
                proof {
                    assert(false);
                }
                return Err(String::new());
            },
        };
        proof {
            assert(found@ == tv);
        }
        let mut task = found;
        let cs = match &task.comments {
            None => {
                return Ok(());
            },
            Some(cs) => crate::task::clone_comments(cs),
        };
        let ghost csd = cs.deep_view();
        let mut out: Vec<crate::task::Comment> = Vec::new();
        let mut i: usize = 0;
        while i < cs.len()
            invariant
                0 <= i <= cs.len(),
                csd == cs.deep_view(),
                csd.len() == cs.len(),
                out.deep_view() =~= rename_list(csd, id@, new_id@).take(i as int),
            decreases cs.len() - i,
        {
            proof {
                assert(cs.deep_view()[i as int] == cs@[i as int]@);
            }
            let mut c = cs[i].clone();
            let hit = match &c.id {
                Some(s) => str_eq(s.as_str(), id),
                None => false,
            };
            if hit {
                c.set_id(new_id.to_owned());
            }
            let ghost before = out@;
            proof {
                lemma_vec_deep(&out);
            }
            let ghost cg = c;
            out.push(c);
            proof {
                crate::task::lemma_seq_deep_push(before, cg);
                lemma_vec_deep(&out);
                assert(out.deep_view() =~= rename_list(csd, id@, new_id@).take(i + 1));
            }
            i = i + 1;
        }
        proof {
            assert(rename_list(csd, id@, new_id@).take(csd.len() as int) =~= rename_list(
                csd,
                id@,
                new_id@,
            ));
        }
        task.set_comments(out);
        proof {
            assert(task@ == rename_comments_spec(tv, id@, new_id@));
        }
        match self.update_task(task) {
            Ok(_) => Ok(()),
            Err(e) => Err(e),
        }
    }

    /// Moves a task to a new id: persists it under the new id (which
    /// records a `TaskCreate` action) and then deletes the old entry; two
    /// commits, not one.
    pub fn update_task_id(&mut self, id: &str, new_id: &str) -> (r: Result<(), String>)
        requires
            store_wf(old(self)@),
            find_decoded(old(self)@, id@) is Some,
            spec_dec_id(id@) is Some,
        ensures
            store_wf(final(self)@),
            ({
                let tv2 = TaskV { id: Some(new_id@), ..find_decoded(old(self)@, id@)->Some_0 };
                let s1 = create_transition(old(self)@, tv2);
                &&& (r is Ok <==> remove_all(current_tree(s1), seq![id@]) is Some)
                &&& (r is Ok ==> final(self)@ == delete_transition(s1, seq![id@]))
                &&& (r is Err ==> final(self)@ == s1)
            }),
    {
        let ghost s0 = old(self)@;
        let ghost tv = find_decoded(s0, id@)->Some_0;
        let found = match self.find_task(id) {
            Ok(Some(t)) => t,
            _ => {
                proof {
                    assert(false);
                }
                return Err(String::new());
            },
        };
        let mut task = found;
        task.set_id(new_id.to_owned());
        proof {
            assert(task@ == (TaskV { id: Some(new_id@), ..tv }));
        }
        let created = match self.create_task(task) {
            Ok(t) => t,
            Err(e) => {
                return Err(e);
            },
        };
        let mut ids: Vec<String> = Vec::new();
        ids.push(id.to_owned());
        proof {
            lemma_vec_deep(&ids);
            assert(ids.deep_view() =~= seq![id@]);
            assert(forall|k: int| 0 <= k < ids@.len() ==> (#[trigger] ids@[k])@ == id@);
        }
        self.delete_tasks(&ids)
    }
}

/// What `set_ref_path` leaves behind.
pub open spec fn set_ref_path_spec(s: StoreV, path: Seq<char>, move_ref: bool) -> StoreV {
    let old_path = ref_path_of(s);
    let cur = refs_find(s.refs, old_path);
    let refs1 = if cur >= 0 {
        refs_set(s.refs, path, s.refs[cur].1)
    } else {
        s.refs
    };
    let refs2 = if move_ref && cur >= 0 {
        refs_remove(refs1, old_path)
    } else {
        refs1
    };
    StoreV { refs: refs2, config: props_set(s.config, "task.ref"@, path), ..s }
}

} // verus!
