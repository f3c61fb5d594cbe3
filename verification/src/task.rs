//! The task data model: tasks with an unordered property mapping, ordered
//! comments and labels, and the closed enumeration of audit actions.
//!
//! Properties are kept as a list of key/value pairs; lookups find the first
//! pair with the key, and the mutators keep keys unique.

use vstd::prelude::*;

use crate::decimal::{dec_rec, u64_to_dec};
use crate::text::{find_first, lemma_find_first, lemma_find_first_at, str_eq};

verus! {

/// The mathematical value of a label.
#[verifier::ext_equal]
pub ghost struct LabelV {
    pub name: Seq<char>,
    pub color: Option<Seq<char>>,
    pub description: Option<Seq<char>>,
}

/// The mathematical value of a comment.
#[verifier::ext_equal]
pub ghost struct CommentV {
    pub id: Option<Seq<char>>,
    pub props: Seq<(Seq<char>, Seq<char>)>,
    pub text: Seq<char>,
}

/// The mathematical value of a task.
#[verifier::ext_equal]
pub ghost struct TaskV {
    pub id: Option<Seq<char>>,
    pub props: Seq<(Seq<char>, Seq<char>)>,
    pub comments: Option<Seq<CommentV>>,
    pub labels: Option<Seq<LabelV>>,
}

/// A named label with an optional color and description.
pub struct Label {
    pub name: String,
    pub color: Option<String>,
    pub description: Option<String>,
}

impl View for Label {
    type V = LabelV;

    open spec fn view(&self) -> LabelV {
        LabelV {
            name: self.name@,
            color: self.color.deep_view(),
            description: self.description.deep_view(),
        }
    }
}

impl DeepView for Label {
    type V = LabelV;

    open spec fn deep_view(&self) -> LabelV {
        self.view()
    }
}

/// A comment with an id unique within its task, a property mapping, and a
/// free-text body.
pub struct Comment {
    pub id: Option<String>,
    pub props: Vec<(String, String)>,
    pub text: String,
}

impl View for Comment {
    type V = CommentV;

    open spec fn view(&self) -> CommentV {
        CommentV { id: self.id.deep_view(), props: self.props.deep_view(), text: self.text@ }
    }
}

impl DeepView for Comment {
    type V = CommentV;

    open spec fn deep_view(&self) -> CommentV {
        self.view()
    }
}

/// A task: an optional decimal id, a property mapping, and optional lists of
/// comments and labels.
pub struct Task {
    pub id: Option<String>,
    pub props: Vec<(String, String)>,
    pub comments: Option<Vec<Comment>>,
    pub labels: Option<Vec<Label>>,
}

impl View for Task {
    type V = TaskV;

    open spec fn view(&self) -> TaskV {
        TaskV {
            id: self.id.deep_view(),
            props: self.props.deep_view(),
            comments: self.comments.deep_view(),
            labels: self.labels.deep_view(),
        }
    }
}

impl DeepView for Task {
    type V = TaskV;

    open spec fn deep_view(&self) -> TaskV {
        self.view()
    }
}

/// The closed enumeration of mutation kinds recorded in the audit trail.
/// `UnknownUpdate` is the forward-compatibility fallback for tags written by
/// a later version.
#[derive(Clone, Copy, Debug, PartialEq, Eq, Structural)]
pub enum TaskAction {
    TaskCreate,
    UpdateStatus,
    SetProperty,
    EditProperty,
    DeleteProperty,
    SearchReplaceProperty,
    AddComment,
    DeleteComment,
    AddLabel,
    UpdateLabel,
    DeleteLabel,
    UnknownUpdate,
}

/// The element-wise mathematical value of a sequence.
pub open spec fn seq_deep<T: DeepView>(s: Seq<T>) -> Seq<T::V> {
    Seq::new(s.len(), |i: int| s[i].deep_view())
}

pub proof fn lemma_vec_deep<T: DeepView>(v: &Vec<T>)
    ensures
        v.deep_view() == seq_deep(v@),
{
    assert(v.deep_view() =~= seq_deep(v@));
}

pub proof fn lemma_seq_deep_push<T: DeepView>(s: Seq<T>, x: T)
    ensures
        seq_deep(s.push(x)) == seq_deep(s).push(x.deep_view()),
{
    assert(seq_deep(s.push(x)) =~= seq_deep(s).push(x.deep_view()));
}

pub proof fn lemma_seq_deep_update<T: DeepView>(s: Seq<T>, i: int, x: T)
    requires
        0 <= i < s.len(),
    ensures
        seq_deep(s.update(i, x)) == seq_deep(s).update(i, x.deep_view()),
{
    assert(seq_deep(s.update(i, x)) =~= seq_deep(s).update(i, x.deep_view()));
}

pub proof fn lemma_seq_deep_remove<T: DeepView>(s: Seq<T>, i: int)
    requires
        0 <= i < s.len(),
    ensures
        seq_deep(s.remove(i)) == seq_deep(s).remove(i),
{
    assert(seq_deep(s.remove(i)) =~= seq_deep(s).remove(i));
}

/// The index of the first pair with key `k`, or -1.
pub open spec fn props_find(ps: Seq<(Seq<char>, Seq<char>)>, k: Seq<char>) -> int
    decreases ps.len(),
{
    if ps.len() == 0 {
        -1
    } else if ps[0].0 == k {
        0
    } else {
        let r = props_find(ps.drop_first(), k);
        if r < 0 {
            -1
        } else {
            r + 1
        }
    }
}

pub open spec fn props_has(ps: Seq<(Seq<char>, Seq<char>)>, k: Seq<char>) -> bool {
    props_find(ps, k) >= 0
}

/// The value under key `k`; meaningful only when `props_has(ps, k)`.
pub open spec fn props_val(ps: Seq<(Seq<char>, Seq<char>)>, k: Seq<char>) -> Seq<char> {
    ps[props_find(ps, k)].1
}

/// The mapping with `k` bound to `v`: an update in place, or a new last pair.
pub open spec fn props_set(
    ps: Seq<(Seq<char>, Seq<char>)>,
    k: Seq<char>,
    v: Seq<char>,
) -> Seq<(Seq<char>, Seq<char>)> {
    if props_has(ps, k) {
        ps.update(props_find(ps, k), (k, v))
    } else {
        ps.push((k, v))
    }
}

/// The mapping without key `k`.
pub open spec fn props_remove(
    ps: Seq<(Seq<char>, Seq<char>)>,
    k: Seq<char>,
) -> Seq<(Seq<char>, Seq<char>)> {
    if props_has(ps, k) {
        ps.remove(props_find(ps, k))
    } else {
        ps
    }
}

/// The mapping with `k` bound to `v` only if it was absent.
pub open spec fn props_default(
    ps: Seq<(Seq<char>, Seq<char>)>,
    k: Seq<char>,
    v: Seq<char>,
) -> Seq<(Seq<char>, Seq<char>)> {
    if props_has(ps, k) {
        ps
    } else {
        ps.push((k, v))
    }
}

/// The index of the first comment with id `id`, or -1.
pub open spec fn comments_find(cs: Seq<CommentV>, id: Seq<char>) -> int {
    find_first(cs, |c: CommentV| c.id == Some(id))
}

/// The index of the first label named `name`, or -1.
pub open spec fn labels_find(ls: Seq<LabelV>, name: Seq<char>) -> int {
    find_first(ls, |l: LabelV| l.name == name)
}

/// The property mapping of a freshly constructed task.
pub open spec fn construct_props(
    name: Seq<char>,
    description: Seq<char>,
    status: Seq<char>,
    author: Option<Seq<char>>,
    created: Seq<char>,
) -> Seq<(Seq<char>, Seq<char>)> {
    let base = seq![
        ("name"@, name),
        ("description"@, description),
        ("status"@, status),
        ("created"@, created),
    ];
    match author {
        None => base,
        Some(a) => base.push(("author"@, a)),
    }
}

/// The property mapping of a new comment: `created` defaulted to the clock,
/// then `author` defaulted to the given author.
pub open spec fn comment_props_spec(
    props: Seq<(Seq<char>, Seq<char>)>,
    author: Option<Seq<char>>,
    ts: Seq<char>,
) -> Seq<(Seq<char>, Seq<char>)> {
    let p1 = props_default(props, "created"@, ts);
    match author {
        None => p1,
        Some(a) => props_default(p1, "author"@, a),
    }
}

/// What `add_comment` leaves behind: the new comment `c` carries the given
/// id or the next list position, and is appended to the comment list.
pub open spec fn add_comment_post(
    t0: TaskV,
    t1: TaskV,
    c: CommentV,
    id: Option<Seq<char>>,
    props: Seq<(Seq<char>, Seq<char>)>,
    text: Seq<char>,
    author: Option<Seq<char>>,
    ts: Seq<char>,
) -> bool {
    let old_list = match t0.comments {
        None => Seq::<CommentV>::empty(),
        Some(l) => l,
    };
    let cid = match id {
        Some(i) => i,
        None => dec_rec((old_list.len() + 1) as nat),
    };
    &&& c == (CommentV { id: Some(cid), props: comment_props_spec(props, author, ts), text })
    &&& t1 == (TaskV { comments: Some(old_list.push(c)), ..t0 })
}

/// Where `props_find` lands: in range and on the key, when it is not -1.
pub proof fn lemma_props_find_bounds(ps: Seq<(Seq<char>, Seq<char>)>, k: Seq<char>)
    ensures
        props_find(ps, k) >= 0 ==> props_find(ps, k) < ps.len() && ps[props_find(ps, k)].0 == k,
        props_find(ps, k) == -1 ==> forall|j: int| 0 <= j < ps.len() ==> (#[trigger] ps[j]).0 != k,
        props_find(ps, k) >= -1,
    decreases ps.len(),
{
    if ps.len() > 0 && ps[0].0 != k {
        lemma_props_find_bounds(ps.drop_first(), k);
        assert(forall|j: int| 0 <= j < ps.drop_first().len() ==> #[trigger] ps.drop_first()[j]
            == ps[j + 1]);
        let r = props_find(ps.drop_first(), k);
        if r >= 0 {
            assert(ps[r + 1].0 == k);
        } else {
            assert forall|j: int| 0 <= j < ps.len() implies (#[trigger] ps[j]).0 != k by {
                if j > 0 {
                    assert(ps.drop_first()[j - 1].0 != k);
                }
            }
        }
    }
}

/// A scan that saw no key match up to `i`, and a match at `i` if `i` is in
/// range, pins `props_find` down.
pub proof fn lemma_props_find_at(ps: Seq<(Seq<char>, Seq<char>)>, k: Seq<char>, i: int)
    requires
        0 <= i <= ps.len(),
        forall|j: int| 0 <= j < i ==> (#[trigger] ps[j]).0 != k,
        i < ps.len() ==> ps[i].0 == k,
    ensures
        props_find(ps, k) == if i < ps.len() { i } else { -1 },
    decreases ps.len(),
{
    if ps.len() > 0 {
        if i == 0 {
            if ps[0].0 != k {
                lemma_props_find_at(ps.drop_first(), k, 0);
            }
        } else {
            assert(ps[0].0 != k);
            assert(forall|j: int| 0 <= j < ps.drop_first().len() ==> #[trigger] ps.drop_first()[j]
                == ps[j + 1]);
            lemma_props_find_at(ps.drop_first(), k, i - 1);
        }
    }
}

/// After a set, the key is bound to the value.
pub proof fn lemma_props_set_same(ps: Seq<(Seq<char>, Seq<char>)>, k: Seq<char>, v: Seq<char>)
    ensures
        props_has(props_set(ps, k, v), k),
        props_val(props_set(ps, k, v), k) == v,
{
    lemma_props_find_bounds(ps, k);
    let f = props_find(ps, k);
    let t = props_set(ps, k, v);
    if f >= 0 {
        assert forall|j: int| 0 <= j < f implies (#[trigger] t[j]).0 != k by {
            assert(t[j] == ps[j]);
            lemma_props_find_at_helper(ps, k, j);
        }
        lemma_props_find_at(t, k, f);
    } else {
        assert forall|j: int| 0 <= j < ps.len() implies (#[trigger] t[j]).0 != k by {
            assert(t[j] == ps[j]);
        }
        lemma_props_find_at(t, k, ps.len() as int);
    }
}

/// No key match strictly before the first-match index.
pub proof fn lemma_props_find_at_helper(ps: Seq<(Seq<char>, Seq<char>)>, k: Seq<char>, j: int)
    requires
        0 <= j < props_find(ps, k),
    ensures
        ps[j].0 != k,
    decreases ps.len(),
{
    lemma_props_find_bounds(ps, k);
    assert(ps.len() > 0);
    assert(ps[0].0 != k) by {
        if ps[0].0 == k {
            assert(props_find(ps, k) == 0);
        }
    }
    if j > 0 {
        assert(forall|m: int| 0 <= m < ps.drop_first().len() ==> #[trigger] ps.drop_first()[m]
            == ps[m + 1]);
        assert(props_find(ps.drop_first(), k) == props_find(ps, k) - 1) by {
            let r = props_find(ps.drop_first(), k);
            if r < 0 {
                assert(props_find(ps, k) == -1);
            }
        }
        lemma_props_find_at_helper(ps.drop_first(), k, j - 1);
        assert(ps.drop_first()[j - 1] == ps[j]);
    }
}

/// A set under one key leaves every other key's binding alone.
pub proof fn lemma_props_set_keep(
    ps: Seq<(Seq<char>, Seq<char>)>,
    k: Seq<char>,
    v: Seq<char>,
    k2: Seq<char>,
)
    requires
        k2 != k,
    ensures
        props_has(props_set(ps, k, v), k2) == props_has(ps, k2),
        props_has(ps, k2) ==> props_val(props_set(ps, k, v), k2) == props_val(ps, k2),
{
    lemma_props_find_bounds(ps, k);
    lemma_props_find_bounds(ps, k2);
    let f = props_find(ps, k);
    let f2 = props_find(ps, k2);
    let t = props_set(ps, k, v);
    if f2 >= 0 {
        assert(ps[f2].0 == k2);
        assert(f2 != f) by {
            if f >= 0 {
                assert(ps[f].0 == k);
            }
        }
        assert forall|j: int| 0 <= j < f2 implies (#[trigger] t[j]).0 != k2 by {
            if j == f {
                assert(t[j].0 == k);
            } else {
                assert(t[j] == ps[j]);
                lemma_props_find_at_helper(ps, k2, j);
            }
        }
        assert(t[f2] == ps[f2]);
        lemma_props_find_at(t, k2, f2);
    } else {
        assert forall|j: int| 0 <= j < t.len() implies (#[trigger] t[j]).0 != k2 by {
            if f >= 0 && j == f {
                assert(t[j].0 == k);
            } else if j < ps.len() {
                assert(t[j] == ps[j]);
                assert(ps[j].0 != k2);
            } else {
                assert(t[j].0 == k);
            }
        }
        lemma_props_find_at(t, k2, t.len() as int);
    }
}

/// The index of the first pair whose key equals `key`, or none.
fn props_index(ps: &Vec<(String, String)>, key: &str) -> (r: Option<usize>)
    ensures
        r matches Some(i) ==> props_find(ps.deep_view(), key@) == i as int,
        r is None ==> props_find(ps.deep_view(), key@) == -1,
{
    let mut i: usize = 0;
    while i < ps.len()
        invariant
            0 <= i <= ps.len(),
            ps.deep_view().len() == ps.len(),
            forall|k: int| 0 <= k < i ==> (#[trigger] ps.deep_view()[k]).0 != key@,
        decreases ps.len() - i,
    {
        assert(ps.deep_view()[i as int] == (ps@[i as int].0@, ps@[i as int].1@));
        if str_eq(ps[i].0.as_str(), key) {
            proof {
                lemma_props_find_at(ps.deep_view(), key@, i as int);
            }
            return Some(i);
        }
        i = i + 1;
    }
    proof {
        lemma_props_find_at(ps.deep_view(), key@, ps.len() as int);
    }
    None
}

/// Relies on `std::time::SystemTime::now`: whole seconds since the Unix
/// epoch, or zero when the clock precedes it.  Nothing can be promised of
/// the clock's value.
#[verifier::external_body]
fn now_seconds() -> u64 {
    match std::time::SystemTime::now().duration_since(std::time::UNIX_EPOCH) {
        Ok(d) => d.as_secs(),
        Err(_) => 0,
    }
}

/// Clones a property list to an equal value.
pub fn clone_props(ps: &Vec<(String, String)>) -> (r: Vec<(String, String)>)
    ensures
        r@ == ps@,
{
    let mut r: Vec<(String, String)> = Vec::new();
    let mut i: usize = 0;
    while i < ps.len()
        invariant
            0 <= i <= ps.len(),
            r@ =~= ps@.take(i as int),
        decreases ps.len() - i,
    {
        r.push((ps[i].0.clone(), ps[i].1.clone()));
        proof {
            assert(r@ =~= ps@.take(i + 1));
        }
        i = i + 1;
    }
    proof {
        assert(ps@.take(ps.len() as int) =~= ps@);
    }
    r
}

impl Clone for Task {
    fn clone(&self) -> (r: Self)
        ensures
            r@ == self@,
    {
        Task {
            id: match &self.id {
                Some(i) => Some(i.clone()),
                None => None,
            },
            props: clone_props(&self.props),
            comments: match &self.comments {
                Some(cs) => Some(clone_comments(cs)),
                None => None,
            },
            labels: match &self.labels {
                Some(ls) => Some(clone_labels(ls)),
                None => None,
            },
        }
    }
}

impl Task {
    /// A new task; rejected when the name or the status is empty.
    pub fn new(name: String, description: String, status: String, author: Option<String>) -> (r:
        Result<Task, &'static str>)
        ensures
            r is Ok <==> (name@.len() > 0 && status@.len() > 0),
            r matches Ok(t) ==> exists|ts: Seq<char>|
                t@ == (TaskV {
                    id: None,
                    props: construct_props(name@, description@, status@, author.deep_view(), ts),
                    comments: None,
                    labels: None,
                }),
            r matches Err(e) ==> e@ == "Name or status is empty"@,
    {
        if !name.as_str().is_empty() && !status.as_str().is_empty() {
            Ok(Self::construct_task(name, description, status, author, None))
        } else {
            Err("Name or status is empty")
        }
    }

    fn construct_task(
        name: String,
        description: String,
        status: String,
        current_user: Option<String>,
        created: Option<u64>,
    ) -> (t: Task)
        ensures
            exists|ts: Seq<char>|
                t@ == (TaskV {
                    id: None,
                    props: construct_props(
                        name@,
                        description@,
                        status@,
                        current_user.deep_view(),
                        ts,
                    ),
                    comments: None,
                    labels: None,
                }),
            created matches Some(c) ==> t@ == (TaskV {
                id: None,
                props: construct_props(
                    name@,
                    description@,
                    status@,
                    current_user.deep_view(),
                    dec_rec(c as nat),
                ),
                comments: None,
                labels: None,
            }),
    {
        let ghost namev = name@;
        let ghost descv = description@;
        let ghost statusv = status@;
        let ghost userv = current_user.deep_view();
        let created_val: u64 = match created {
            Some(c) => c,
            None => now_seconds(),
        };
        let ts = u64_to_dec(created_val);
        let ghost tsv = ts@;
        let mut props: Vec<(String, String)> = Vec::new();
        props.push(("name".to_owned(), name));
        props.push(("description".to_owned(), description));
        props.push(("status".to_owned(), status));
        props.push(("created".to_owned(), ts));
        let mut props = props;
        match current_user {
            Some(user) => {
                props.push(("author".to_owned(), user));
            },
            None => {},
        }
        let t = Task { id: None, props, comments: None, labels: None };
        proof {
            assert(t@.props =~= construct_props(namev, descv, statusv, userv, tsv));
            assert(t@ == (TaskV {
                id: None,
                props: construct_props(namev, descv, statusv, userv, tsv),
                comments: None,
                labels: None,
            }));
        }
        t
    }

    /// A task from an id and a property mapping; rejected when the name or
    /// status property is missing or empty; `created` is defaulted to the
    /// clock.
    pub fn from_properties(id: String, props: Vec<(String, String)>) -> (r: Result<
        Task,
        &'static str,
    >)
        ensures
            r is Ok <==> (props_has(props.deep_view(), "name"@) && props_val(
                props.deep_view(),
                "name"@,
            ).len() > 0 && props_has(props.deep_view(), "status"@) && props_val(
                props.deep_view(),
                "status"@,
            ).len() > 0),
            r matches Ok(t) ==> t@.id == Some(id@) && t@.comments is None && t@.labels is None
                && exists|ts: Seq<char>| t@.props == props_default(
                props.deep_view(),
                "created"@,
                ts,
            ),
            r matches Err(e) ==> e@ == "Name or status is empty"@,
    {
        let ghost pd = props.deep_view();
        let name_ok = match props_index(&props, "name") {
            Some(i) => {
                proof {
                    lemma_props_find_bounds(pd, "name"@);
                    assert(pd[i as int] == (props@[i as int].0@, props@[i as int].1@));
                }
                !props[i].1.as_str().is_empty()
            },
            None => false,
        };
        let status_ok = match props_index(&props, "status") {
            Some(i) => {
                proof {
                    lemma_props_find_bounds(pd, "status"@);
                    assert(pd[i as int] == (props@[i as int].0@, props@[i as int].1@));
                }
                !props[i].1.as_str().is_empty()
            },
            None => false,
        };
        if name_ok && status_ok {
            let mut props = props;
            match props_index(&props, "created") {
                Some(_) => {
                    proof {
                        assert(props.deep_view() == props_default(pd, "created"@, Seq::<
                            char,
                        >::empty()));
                    }
                },
                None => {
                    let ts = u64_to_dec(now_seconds());
                    let ghost tsv = ts@;
                    let ghost before = props@;
                    let pair = ("created".to_owned(), ts);
                    let ghost pairg = pair;
                    props.push(pair);
                    proof {
                        lemma_vec_deep(&props);
                        lemma_seq_deep_push(before, pairg);
                        assert(props.deep_view() =~= props_default(pd, "created"@, tsv));
                    }
                },
            }
            Ok(Task { id: Some(id), props, comments: None, labels: None })
        } else {
            Err("Name or status is empty")
        }
    }

    pub fn get_id(&self) -> (r: Option<String>)
        ensures
            r.deep_view() == self@.id,
    {
        match &self.id {
            Some(id) => Some(id.clone()),
            None => None,
        }
    }

    pub fn set_id(&mut self, id: String)
        ensures
            final(self)@ == (TaskV { id: Some(id@), ..old(self)@ }),
    {
        self.id = Some(id);
    }

    /// The value of a property, when the task has it.
    pub fn get_property(&self, prop: &str) -> (r: Option<&String>)
        ensures
            r matches Some(v) ==> props_has(self@.props, prop@) && v@ == props_val(
                self@.props,
                prop@,
            ),
            r is None ==> !props_has(self@.props, prop@),
    {
        match props_index(&self.props, prop) {
            Some(i) => {
                proof {
                    lemma_props_find_bounds(self@.props, prop@);
                    assert(self@.props[i as int] == (self.props@[i as int].0@, self.props@[i
                        as int].1@));
                }
                Some(&self.props[i].1)
            },
            None => None,
        }
    }

    pub fn get_all_properties(&self) -> (r: &Vec<(String, String)>)
        ensures
            r.deep_view() == self@.props,
    {
        &self.props
    }

    /// Binds the property to the value, replacing any previous binding.
    pub fn set_property(&mut self, prop: &str, value: &str)
        ensures
            final(self)@ == (TaskV {
                props: props_set(old(self)@.props, prop@, value@),
                ..old(self)@
            }),
    {
        let ghost pd = old(self)@.props;
        match props_index(&self.props, prop) {
            Some(i) => {
                proof {
                    lemma_props_find_bounds(old(self)@.props, prop@);
                }
                let ghost before = self.props@;
                let pair = (prop.to_owned(), value.to_owned());
                let ghost pairg = pair;
                self.props[i] = pair;
                proof {
                    lemma_vec_deep(&self.props);
                    lemma_seq_deep_update(before, i as int, pairg);
                    assert(self@.props =~= props_set(pd, prop@, value@));
                }
            },
            None => {
                let ghost before = self.props@;
                let pair = (prop.to_owned(), value.to_owned());
                let ghost pairg = pair;
                self.props.push(pair);
                proof {
                    lemma_vec_deep(&self.props);
                    lemma_seq_deep_push(before, pairg);
                    assert(self@.props =~= props_set(pd, prop@, value@));
                }
            },
        }
    }

    pub fn has_property(&self, prop: &str) -> (r: bool)
        ensures
            r == props_has(self@.props, prop@),
    {
        match props_index(&self.props, prop) {
            Some(_) => true,
            None => false,
        }
    }

    /// Removes the property; says whether it was there.
    pub fn delete_property(&mut self, prop: &str) -> (r: bool)
        ensures
            r == props_has(old(self)@.props, prop@),
            final(self)@ == (TaskV {
                props: props_remove(old(self)@.props, prop@),
                ..old(self)@
            }),
    {
        let ghost pd = old(self)@.props;
        match props_index(&self.props, prop) {
            Some(i) => {
                proof {
                    lemma_props_find_bounds(old(self)@.props, prop@);
                }
                let ghost before = self.props@;
                self.props.remove(i);
                proof {
                    lemma_vec_deep(&self.props);
                    lemma_seq_deep_remove(before, i as int);
                    assert(self@.props =~= props_remove(pd, prop@));
                }
                true
            },
            None => false,
        }
    }

    pub fn get_comments(&self) -> (r: &Option<Vec<Comment>>)
        ensures
            r.deep_view() == self@.comments,
    {
        &self.comments
    }

    /// Appends a comment built from the arguments: its id is the given one
    /// or the next list position, `created` is defaulted to the clock, and
    /// `author` to the given author.
    pub fn add_comment(
        &mut self,
        id: Option<String>,
        props: Vec<(String, String)>,
        text: String,
        author: Option<String>,
    ) -> (r: Comment)
        requires
            old(self)@.comments matches Some(l) ==> l.len() < 0x7fff_ffff_ffff_ffff,
        ensures
            exists|ts: Seq<char>|
                add_comment_post(
                    old(self)@,
                    final(self)@,
                    r@,
                    id.deep_view(),
                    props.deep_view(),
                    text@,
                    author.deep_view(),
                    ts,
                ),
    {
        let ghost t0 = old(self)@;
        let ghost idv = id.deep_view();
        let ghost propsv = props.deep_view();
        let ghost authorv = author.deep_view();
        let ghost textv = text@;
        if self.comments.is_none() {
            self.comments = Some(Vec::new());
        }
        let n: usize = match &self.comments {
            Some(v) => v.len(),
            None => 0,
        };
        let ghost old_list = match t0.comments {
            None => Seq::<CommentV>::empty(),
            Some(l) => l,
        };
        proof {
            match t0.comments {
                None => {
                    assert(n == 0);
                },
                Some(l) => {
                    assert(n == l.len());
                },
            }
        }
        let cid: String = match id {
            Some(i) => i,
            None => u64_to_dec(n as u64 + 1),
        };
        let ghost cidv = cid@;
        let ts_str = u64_to_dec(now_seconds());
        let ghost tsv = ts_str@;
        let mut cprops = props;
        match props_index(&cprops, "created") {
            Some(_) => {},
            None => {
                let ghost before = cprops@;
                let pair = ("created".to_owned(), ts_str);
                let ghost pairg = pair;
                cprops.push(pair);
                proof {
                    lemma_vec_deep(&cprops);
                    lemma_seq_deep_push(before, pairg);
                    assert(cprops.deep_view() =~= props_default(propsv, "created"@, tsv));
                }
            },
        }
        proof {
            assert(cprops.deep_view() == props_default(propsv, "created"@, tsv));
        }
        let ghost p1 = cprops.deep_view();
        match props_index(&cprops, "author") {
            Some(_) => {},
            None => {
                match author {
                    Some(a) => {
                        let ghost before = cprops@;
                        let pair = ("author".to_owned(), a);
                        let ghost pairg = pair;
                        cprops.push(pair);
                        proof {
                            lemma_vec_deep(&cprops);
                            lemma_seq_deep_push(before, pairg);
                            assert(cprops.deep_view() =~= props_default(p1, "author"@, a@));
                        }
                    },
                    None => {},
                }
            },
        }
        proof {
            assert(cprops.deep_view() == comment_props_spec(propsv, authorv, tsv));
        }
        let comment = Comment { id: Some(cid), props: cprops, text };
        match &mut self.comments {
            Some(v) => {
                let ghost before = v@;
                let cc = comment.clone();
                let ghost ccg = cc;
                v.push(cc);
                proof {
                    lemma_vec_deep(v);
                    lemma_seq_deep_push(before, ccg);
                }
            },
            None => {},
        }
        proof {
            assert(comment@ == (CommentV {
                id: Some(cidv),
                props: comment_props_spec(propsv, authorv, tsv),
                text: textv,
            }));
            assert(self@.comments == Some(old_list.push(comment@)));
            assert(add_comment_post(t0, self@, comment@, idv, propsv, textv, authorv, tsv));
        }
        comment
    }

    pub fn set_comments(&mut self, comments: Vec<Comment>)
        ensures
            final(self)@ == (TaskV { comments: Some(comments.deep_view()), ..old(self)@ }),
    {
        self.comments = Some(comments);
    }

    /// Removes the comment with the given id; an error names a missing list
    /// or an unknown id.
    pub fn delete_comment(&mut self, id: &String) -> (r: Result<(), String>)
        ensures
            old(self)@.comments is None ==> (r matches Err(e) && e@ == "Task has no comments"@
                && final(self)@ == old(self)@),
            old(self)@.comments matches Some(l) ==> (comments_find(l, id@) == -1 ==> (r matches Err(e)
                && e@ == "Comment ID "@ + id@ + " not found"@ && final(self)@ == old(self)@)),
            old(self)@.comments matches Some(l) ==> (comments_find(l, id@) >= 0 ==> (r is Ok
                && final(self)@ == (TaskV { comments: Some(l.remove(comments_find(l, id@))), ..old(self)@ }))),
    {
        let ghost t0 = old(self)@;
        match &mut self.comments {
            None => Err("Task has no comments".to_owned()),
            Some(v) => {
                match comment_index(v, id.as_str()) {
                    None => Err(
                        String::from_str("Comment ID ").concat(id.as_str()).concat(" not found"),
                    ),
                    Some(i) => {
                        let ghost before = v@;
                        proof {
                            lemma_find_first(
                                v.deep_view(),
                                |c: CommentV| c.id == Some(id@),
                            );
                        }
                        v.remove(i);
                        proof {
                            lemma_vec_deep(v);
                            lemma_seq_deep_remove(before, i as int);
                        }
                        Ok(())
                    },
                }
            },
        }
    }

    pub fn get_labels(&self) -> (r: &Option<Vec<Label>>)
        ensures
            r.deep_view() == self@.labels,
    {
        &self.labels
    }

    /// Appends a label built from the arguments and returns it.
    pub fn add_label(&mut self, name: String, description: Option<String>, color: Option<String>)
        -> (r: Label)
        ensures
            r@ == (LabelV {
                name: name@,
                color: color.deep_view(),
                description: description.deep_view(),
            }),
            final(self)@ == (TaskV {
                labels: Some(
                    match old(self)@.labels {
                        None => Seq::<LabelV>::empty(),
                        Some(l) => l,
                    }.push(r@),
                ),
                ..old(self)@
            }),
    {
        let ghost t0 = old(self)@;
        if self.labels.is_none() {
            self.labels = Some(Vec::new());
        }
        let label = Label { name, description, color };
        match &mut self.labels {
            Some(v) => {
                let ghost before = v@;
                let lc = label.clone();
                let ghost lcg = lc;
                v.push(lc);
                proof {
                    lemma_vec_deep(v);
                    lemma_seq_deep_push(before, lcg);
                }
            },
            None => {},
        }
        label
    }

    pub fn set_labels(&mut self, labels: Vec<Label>)
        ensures
            final(self)@ == (TaskV { labels: Some(labels.deep_view()), ..old(self)@ }),
    {
        self.labels = Some(labels);
    }

    /// Removes the label with the given name; an error names a missing list
    /// or an unknown name.
    pub fn delete_label(&mut self, name: &str) -> (r: Result<(), String>)
        ensures
            old(self)@.labels is None ==> (r matches Err(e) && e@ == "Task has no labels"@
                && final(self)@ == old(self)@),
            old(self)@.labels matches Some(l) ==> (labels_find(l, name@) == -1 ==> (r matches Err(e)
                && e@ == "Label with name '"@ + name@ + "' not found"@ && final(self)@ == old(self)@)),
            old(self)@.labels matches Some(l) ==> (labels_find(l, name@) >= 0 ==> (r is Ok
                && final(self)@ == (TaskV { labels: Some(l.remove(labels_find(l, name@))), ..old(self)@ }))),
    {
        match &mut self.labels {
            None => Err("Task has no labels".to_owned()),
            Some(v) => {
                match label_index(v, name) {
                    None => Err(
                        String::from_str("Label with name '").concat(name).concat("' not found"),
                    ),
                    Some(i) => {
                        let ghost before = v@;
                        proof {
                            lemma_find_first(v.deep_view(), |l: LabelV| l.name == name@);
                        }
                        v.remove(i);
                        proof {
                            lemma_vec_deep(v);
                            lemma_seq_deep_remove(before, i as int);
                        }
                        Ok(())
                    },
                }
            },
        }
    }

    /// The first label with the given name, when the task has one.
    pub fn get_label_by_name(&self, name: &str) -> (r: Option<&Label>)
        ensures
            self@.labels is None ==> r is None,
            self@.labels matches Some(l) ==> (labels_find(l, name@) == -1 ==> r is None),
            self@.labels matches Some(l) ==> (labels_find(l, name@) >= 0 ==> (r matches Some(lab)
                && lab@ == l[labels_find(l, name@)])),
    {
        match &self.labels {
            None => None,
            Some(v) => {
                match label_index(v, name) {
                    None => None,
                    Some(i) => {
                        proof {
                            lemma_find_first(v.deep_view(), |l: LabelV| l.name == name@);
                            assert(v.deep_view()[i as int] == v@[i as int]@);
                        }
                        Some(&v[i])
                    },
                }
            },
        }
    }
}

impl Clone for Label {
    fn clone(&self) -> (r: Self)
        ensures
            r == *self,
    {
        Label {
            name: self.name.clone(),
            color: match &self.color {
                Some(c) => Some(c.clone()),
                None => None,
            },
            description: match &self.description {
                Some(d) => Some(d.clone()),
                None => None,
            },
        }
    }
}

impl Label {
    pub fn new(name: String, color: Option<String>, description: Option<String>) -> (r: Label)
        ensures
            r@ == (LabelV { name: name@, color: color.deep_view(), description: description.deep_view() }),
    {
        Label { name, color, description }
    }

    pub fn get_name(&self) -> (r: String)
        ensures
            r@ == self@.name,
    {
        self.name.clone()
    }

    /// The color, or the empty string when none is set.
    pub fn get_color(&self) -> (r: String)
        ensures
            self@.color matches Some(c) ==> r@ == c,
            self@.color is None ==> r@ == Seq::<char>::empty(),
    {
        match &self.color {
            Some(c) => c.clone(),
            None => String::new(),
        }
    }

    pub fn set_color(&mut self, color: String)
        ensures
            final(self)@ == (LabelV { color: Some(color@), ..old(self)@ }),
    {
        self.color = Some(color);
    }

    pub fn get_description(&self) -> (r: Option<String>)
        ensures
            r.deep_view() == self@.description,
    {
        match &self.description {
            Some(d) => Some(d.clone()),
            None => None,
        }
    }

    pub fn set_description(&mut self, description: String)
        ensures
            final(self)@ == (LabelV { description: Some(description@), ..old(self)@ }),
    {
        self.description = Some(description);
    }
}

impl Clone for Comment {
    fn clone(&self) -> (r: Self)
        ensures
            r@ == self@,
    {
        Comment {
            id: match &self.id {
                Some(i) => Some(i.clone()),
                None => None,
            },
            props: clone_props(&self.props),
            text: self.text.clone(),
        }
    }
}

impl Comment {
    pub fn new(id: String, props: Vec<(String, String)>, text: String) -> (r: Comment)
        ensures
            r@ == (CommentV { id: Some(id@), props: props.deep_view(), text: text@ }),
    {
        Comment { id: Some(id), props, text }
    }

    pub fn get_id(&self) -> (r: Option<String>)
        ensures
            r.deep_view() == self@.id,
    {
        match &self.id {
            Some(id) => Some(id.clone()),
            None => None,
        }
    }

    pub fn set_id(&mut self, id: String)
        ensures
            final(self)@ == (CommentV { id: Some(id@), ..old(self)@ }),
    {
        self.id = Some(id);
    }

    pub fn get_all_properties(&self) -> (r: &Vec<(String, String)>)
        ensures
            r.deep_view() == self@.props,
    {
        &self.props
    }

    pub fn get_text(&self) -> (r: String)
        ensures
            r@ == self@.text,
    {
        self.text.clone()
    }

    pub fn set_text(&mut self, text: String)
        ensures
            final(self)@ == (CommentV { text: text@, ..old(self)@ }),
    {
        self.text = text;
    }
}

/// The index of the first comment whose id equals `id`, or none.
fn comment_index(cs: &Vec<Comment>, id: &str) -> (r: Option<usize>)
    ensures
        r matches Some(i) ==> comments_find(cs.deep_view(), id@) == i as int,
        r is None ==> comments_find(cs.deep_view(), id@) == -1,
{
    let ghost p = |c: CommentV| c.id == Some(id@);
    let mut i: usize = 0;
    while i < cs.len()
        invariant
            0 <= i <= cs.len(),
            cs.deep_view().len() == cs.len(),
            forall|k: int| 0 <= k < i ==> !p(cs.deep_view()[k]),
            p == (|c: CommentV| c.id == Some(id@)),
        decreases cs.len() - i,
    {
        assert(cs.deep_view()[i as int] == cs@[i as int]@);
        let hit = match &cs[i].id {
            Some(s) => str_eq(s.as_str(), id),
            None => false,
        };
        if hit {
            proof {
                lemma_find_first_at(cs.deep_view(), p, i as int);
            }
            return Some(i);
        }
        i = i + 1;
    }
    proof {
        lemma_find_first_at(cs.deep_view(), p, cs.len() as int);
    }
    None
}

/// The index of the first label whose name equals `name`, or none.
fn label_index(ls: &Vec<Label>, name: &str) -> (r: Option<usize>)
    ensures
        r matches Some(i) ==> labels_find(ls.deep_view(), name@) == i as int,
        r is None ==> labels_find(ls.deep_view(), name@) == -1,
{
    let ghost p = |l: LabelV| l.name == name@;
    let mut i: usize = 0;
    while i < ls.len()
        invariant
            0 <= i <= ls.len(),
            ls.deep_view().len() == ls.len(),
            forall|k: int| 0 <= k < i ==> !p(ls.deep_view()[k]),
            p == (|l: LabelV| l.name == name@),
        decreases ls.len() - i,
    {
        assert(ls.deep_view()[i as int] == ls@[i as int]@);
        if str_eq(ls[i].name.as_str(), name) {
            proof {
                lemma_find_first_at(ls.deep_view(), p, i as int);
            }
            return Some(i);
        }
        i = i + 1;
    }
    proof {
        lemma_find_first_at(ls.deep_view(), p, ls.len() as int);
    }
    None
}

/// Clones a comment list to a list with the same mathematical value.
pub fn clone_comments(cs: &Vec<Comment>) -> (r: Vec<Comment>)
    ensures
        r.deep_view() == cs.deep_view(),
{
    let mut r: Vec<Comment> = Vec::new();
    let mut i: usize = 0;
    while i < cs.len()
        invariant
            0 <= i <= cs.len(),
            r.deep_view() =~= cs.deep_view().take(i as int),
        decreases cs.len() - i,
    {
        let c = cs[i].clone();
        let ghost r0 = r@;
        proof {
            assert(r.deep_view().len() == r@.len());
            assert(r0.len() == i as int);
        }
        r.push(c);
        proof {
            assert(r@ == r0.push(c));
            assert forall|j: int| 0 <= j < r@.len() implies r.deep_view()[j]
                == cs.deep_view().take(i + 1)[j] by {
                if j < i {
                    assert(r@[j] == r0[j]);
                } else {
                    assert(r@[j]@ == cs@[i as int]@);
                }
            }
            assert(r.deep_view() =~= cs.deep_view().take(i + 1));
        }
        i = i + 1;
    }
    proof {
        assert(cs.deep_view().take(cs.len() as int) =~= cs.deep_view());
    }
    r
}

/// Clones a label list to an equal value.
pub fn clone_labels(ls: &Vec<Label>) -> (r: Vec<Label>)
    ensures
        r@ == ls@,
{
    let mut r: Vec<Label> = Vec::new();
    let mut i: usize = 0;
    while i < ls.len()
        invariant
            0 <= i <= ls.len(),
            r@ =~= ls@.take(i as int),
        decreases ls.len() - i,
    {
        r.push(ls[i].clone());
        proof {
            assert(r@ =~= ls@.take(i + 1));
        }
        i = i + 1;
    }
    proof {
        assert(ls@.take(ls.len() as int) =~= ls@);
    }
    r
}

} // verus!
