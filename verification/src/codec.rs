//! The JSON codec for tasks and action records.
//!
//! Blobs are UTF-8 JSON text.  A task is an object with the fields `id`,
//! `props`, `comments` and `labels`, of which `id` and the two lists are
//! omitted when absent; properties are an object of string pairs; an action
//! is a bare string holding the variant's name.  The encoder is strict; the
//! decoder reads what the encoder writes and maps unknown action tags to
//! `UnknownUpdate`.

use vstd::prelude::*;

use crate::task::{
    lemma_seq_deep_push, lemma_vec_deep, Comment, CommentV, Label, LabelV, Task, TaskAction, TaskV,
};
use crate::text::{push_char, str_eq};
use vstd::string::{StrSliceExecFns, StringExecFns};

verus! {

/// The escape sequence for one character inside a JSON string.
pub open spec fn esc_char(c: char) -> Seq<char> {
    if c == '"' {
        seq!['\\', '"']
    } else if c == '\\' {
        seq!['\\', '\\']
    } else if c == '\n' {
        seq!['\\', 'n']
    } else if c == '\r' {
        seq!['\\', 'r']
    } else if c == '\t' {
        seq!['\\', 't']
    } else {
        seq![c]
    }
}

/// The escaped body of a JSON string.
pub open spec fn esc(s: Seq<char>) -> Seq<char>
    decreases s.len(),
{
    if s.len() == 0 {
        Seq::<char>::empty()
    } else {
        esc_char(s[0]) + esc(s.drop_first())
    }
}

/// A JSON string: quote, escaped body, quote.
pub open spec fn ser_str(s: Seq<char>) -> Seq<char> {
    seq!['"'] + esc(s) + seq!['"']
}

/// Items joined by commas.
pub open spec fn ser_join<T>(items: Seq<T>, f: spec_fn(T) -> Seq<char>) -> Seq<char>
    decreases items.len(),
{
    if items.len() == 0 {
        Seq::<char>::empty()
    } else if items.len() == 1 {
        f(items[0])
    } else {
        f(items[0]) + seq![','] + ser_join(items.drop_first(), f)
    }
}

pub open spec fn ser_pair(p: (Seq<char>, Seq<char>)) -> Seq<char> {
    ser_str(p.0) + seq![':'] + ser_str(p.1)
}

pub open spec fn ser_pairs(ps: Seq<(Seq<char>, Seq<char>)>) -> Seq<char> {
    ser_join(ps, |p: (Seq<char>, Seq<char>)| ser_pair(p))
}

/// A property mapping as a JSON object.
pub open spec fn ser_props(ps: Seq<(Seq<char>, Seq<char>)>) -> Seq<char> {
    seq!['{'] + ser_pairs(ps) + seq!['}']
}

pub open spec fn key_id() -> Seq<char> {
    "\"id\":"@
}

pub open spec fn key_props() -> Seq<char> {
    "\"props\":"@
}

pub open spec fn key_text() -> Seq<char> {
    ",\"text\":"@
}

pub open spec fn key_name() -> Seq<char> {
    "\"name\":"@
}

pub open spec fn key_color() -> Seq<char> {
    ",\"color\":"@
}

pub open spec fn key_description() -> Seq<char> {
    ",\"description\":"@
}

pub open spec fn key_comments() -> Seq<char> {
    ",\"comments\":["@
}

pub open spec fn key_labels() -> Seq<char> {
    ",\"labels\":["@
}

/// A comment as a JSON object; the id is omitted when absent.
pub open spec fn ser_comment(c: CommentV) -> Seq<char> {
    seq!['{'] + (match c.id {
        Some(v) => key_id() + ser_str(v) + seq![','],
        None => Seq::<char>::empty(),
    }) + key_props() + ser_props(c.props) + key_text() + ser_str(c.text) + seq!['}']
}

/// A label as a JSON object; color and description are omitted when absent.
pub open spec fn ser_label(l: LabelV) -> Seq<char> {
    seq!['{'] + key_name() + ser_str(l.name) + (match l.color {
        Some(v) => key_color() + ser_str(v),
        None => Seq::<char>::empty(),
    }) + (match l.description {
        Some(v) => key_description() + ser_str(v),
        None => Seq::<char>::empty(),
    }) + seq!['}']
}

pub open spec fn ser_comments(cs: Seq<CommentV>) -> Seq<char> {
    ser_join(cs, |c: CommentV| ser_comment(c))
}

pub open spec fn ser_labels(ls: Seq<LabelV>) -> Seq<char> {
    ser_join(ls, |l: LabelV| ser_label(l))
}

/// A task as a JSON object; id, comments and labels are omitted when absent.
pub open spec fn ser_task(t: TaskV) -> Seq<char> {
    seq!['{'] + (match t.id {
        Some(v) => key_id() + ser_str(v) + seq![','],
        None => Seq::<char>::empty(),
    }) + key_props() + ser_props(t.props) + (match t.comments {
        Some(cs) => key_comments() + ser_comments(cs) + seq![']'],
        None => Seq::<char>::empty(),
    }) + (match t.labels {
        Some(ls) => key_labels() + ser_labels(ls) + seq![']'],
        None => Seq::<char>::empty(),
    }) + seq!['}']
}

/// The tag under which an action is stored.
pub open spec fn action_tag(a: TaskAction) -> Seq<char> {
    match a {
        TaskAction::TaskCreate => "TaskCreate"@,
        TaskAction::UpdateStatus => "UpdateStatus"@,
        TaskAction::SetProperty => "SetProperty"@,
        TaskAction::EditProperty => "EditProperty"@,
        TaskAction::DeleteProperty => "DeleteProperty"@,
        TaskAction::SearchReplaceProperty => "SearchReplaceProperty"@,
        TaskAction::AddComment => "AddComment"@,
        TaskAction::DeleteComment => "DeleteComment"@,
        TaskAction::AddLabel => "AddLabel"@,
        TaskAction::UpdateLabel => "UpdateLabel"@,
        TaskAction::DeleteLabel => "DeleteLabel"@,
        TaskAction::UnknownUpdate => "UnknownUpdate"@,
    }
}

/// An action as a bare JSON string.  No tag holds a character that needs
/// escaping, so the body is the tag itself.
pub open spec fn ser_action(a: TaskAction) -> Seq<char> {
    seq!['"'] + action_tag(a) + seq!['"']
}

pub proof fn lemma_esc_snoc(v: Seq<char>, c: char)
    ensures
        esc(v.push(c)) == esc(v) + esc_char(c),
    decreases v.len(),
{
    if v.len() == 0 {
        assert(v.push(c).drop_first() =~= Seq::<char>::empty());
        assert(v.push(c)[0] == c);
        assert(esc(Seq::<char>::empty()) == Seq::<char>::empty());
        assert(esc(v.push(c)) == esc_char(c) + esc(Seq::<char>::empty()));
        assert(esc(v.push(c)) =~= esc(v) + esc_char(c));
    } else {
        lemma_esc_snoc(v.drop_first(), c);
        assert(v.push(c).drop_first() =~= v.drop_first().push(c));
        assert(v.push(c)[0] == v[0]);
        assert(esc(v.push(c)) == esc_char(v[0]) + esc(v.drop_first().push(c)));
        assert(esc(v.push(c)) =~= esc(v) + esc_char(c));
    }
}

pub proof fn lemma_ser_join_snoc<T>(items: Seq<T>, x: T, f: spec_fn(T) -> Seq<char>)
    ensures
        items.len() == 0 ==> ser_join(items.push(x), f) == f(x),
        items.len() > 0 ==> ser_join(items.push(x), f) == ser_join(items, f) + seq![','] + f(x),
    decreases items.len(),
{
    if items.len() == 0 {
        assert(items.push(x)[0] == x);
        assert(ser_join(items.push(x), f) =~= f(x));
    } else if items.len() == 1 {
        assert(items.push(x).drop_first() =~= items.drop_first().push(x));
        lemma_ser_join_snoc(items.drop_first(), x, f);
        assert(ser_join(items.push(x), f) =~= ser_join(items, f) + seq![','] + f(x));
    } else {
        assert(items.push(x).drop_first() =~= items.drop_first().push(x));
        lemma_ser_join_snoc(items.drop_first(), x, f);
        assert(ser_join(items.push(x), f) =~= ser_join(items, f) + seq![','] + f(x));
    }
}

/// Appends the JSON string for `s`.
fn enc_str_into(out: &mut String, s: &str)
    ensures
        final(out)@ == old(out)@ + ser_str(s@),
{
    let ghost base = old(out)@;
    push_char(out, '"');
    let n = s.unicode_len();
    let mut i: usize = 0;
    while i < n
        invariant
            0 <= i <= n,
            n == s@.len(),
            out@ == base + seq!['"'] + esc(s@.take(i as int)),
        decreases n - i,
    {
        let c = s.get_char(i);
        if c == '"' {
            push_char(out, '\\');
            push_char(out, '"');
        } else if c == '\\' {
            push_char(out, '\\');
            push_char(out, '\\');
        } else if c == '\n' {
            push_char(out, '\\');
            push_char(out, 'n');
        } else if c == '\r' {
            push_char(out, '\\');
            push_char(out, 'r');
        } else if c == '\t' {
            push_char(out, '\\');
            push_char(out, 't');
        } else {
            push_char(out, c);
        }
        proof {
            lemma_esc_snoc(s@.take(i as int), c);
            assert(s@.take(i + 1) =~= s@.take(i as int).push(c));
            assert(out@ =~= base + seq!['"'] + esc(s@.take(i + 1)));
        }
        i = i + 1;
    }
    push_char(out, '"');
    proof {
        assert(s@.take(n as int) =~= s@);
        assert(out@ =~= base + ser_str(s@));
    }
}

/// Appends the JSON object for a property mapping.
fn enc_props_into(out: &mut String, ps: &Vec<(String, String)>)
    ensures
        final(out)@ == old(out)@ + ser_props(ps.deep_view()),
{
    let ghost base = old(out)@;
    let ghost pd = ps.deep_view();
    let ghost f = |p: (Seq<char>, Seq<char>)| ser_pair(p);
    push_char(out, '{');
    let mut i: usize = 0;
    while i < ps.len()
        invariant
            0 <= i <= ps.len(),
            pd.len() == ps.len(),
            pd == ps.deep_view(),
            f == (|p: (Seq<char>, Seq<char>)| ser_pair(p)),
            out@ == base + seq!['{'] + ser_join(pd.take(i as int), f),
        decreases ps.len() - i,
    {
        if i > 0 {
            push_char(out, ',');
        }
        enc_str_into(out, ps[i].0.as_str());
        push_char(out, ':');
        enc_str_into(out, ps[i].1.as_str());
        proof {
            assert(pd[i as int] == (ps@[i as int].0@, ps@[i as int].1@));
            lemma_ser_join_snoc(pd.take(i as int), pd[i as int], f);
            assert(pd.take(i + 1) =~= pd.take(i as int).push(pd[i as int]));
            assert(out@ =~= base + seq!['{'] + ser_join(pd.take(i + 1), f));
        }
        i = i + 1;
    }
    push_char(out, '}');
    proof {
        assert(pd.take(pd.len() as int) =~= pd);
        assert(out@ =~= base + ser_props(pd));
    }
}

/// Appends the JSON object for a comment.
fn enc_comment_into(out: &mut String, c: &Comment)
    ensures
        final(out)@ == old(out)@ + ser_comment(c@),
{
    let ghost base = old(out)@;
    push_char(out, '{');
    match &c.id {
        Some(v) => {
            out.append("\"id\":");
            enc_str_into(out, v.as_str());
            push_char(out, ',');
        },
        None => {},
    }
    out.append("\"props\":");
    enc_props_into(out, &c.props);
    out.append(",\"text\":");
    enc_str_into(out, c.text.as_str());
    push_char(out, '}');
    proof {
        assert(out@ =~= base + ser_comment(c@));
    }
}

/// Appends the JSON object for a label.
fn enc_label_into(out: &mut String, l: &Label)
    ensures
        final(out)@ == old(out)@ + ser_label(l@),
{
    let ghost base = old(out)@;
    push_char(out, '{');
    out.append("\"name\":");
    enc_str_into(out, l.name.as_str());
    match &l.color {
        Some(v) => {
            out.append(",\"color\":");
            enc_str_into(out, v.as_str());
        },
        None => {},
    }
    match &l.description {
        Some(v) => {
            out.append(",\"description\":");
            enc_str_into(out, v.as_str());
        },
        None => {},
    }
    push_char(out, '}');
    proof {
        assert(out@ =~= base + ser_label(l@));
    }
}

/// Appends comma-joined comment objects.
fn enc_comments_into(out: &mut String, cs: &Vec<Comment>)
    ensures
        final(out)@ == old(out)@ + ser_comments(cs.deep_view()),
{
    let ghost base = out@;
    let ghost cd = cs.deep_view();
    let ghost f = |c: CommentV| ser_comment(c);
    let mut i: usize = 0;
    while i < cs.len()
        invariant
            0 <= i <= cs.len(),
            cd.len() == cs.len(),
            cd == cs.deep_view(),
            f == (|c: CommentV| ser_comment(c)),
            out@ == base + ser_join(cd.take(i as int), f),
        decreases cs.len() - i,
    {
        if i > 0 {
            push_char(out, ',');
        }
        enc_comment_into(out, &cs[i]);
        proof {
            assert(cd[i as int] == cs@[i as int]@);
            lemma_ser_join_snoc(cd.take(i as int), cd[i as int], f);
            assert(cd.take(i + 1) =~= cd.take(i as int).push(cd[i as int]));
            assert(out@ =~= base + ser_join(cd.take(i + 1), f));
        }
        i = i + 1;
    }
    proof {
        assert(cd.take(cd.len() as int) =~= cd);
    }
}

/// Appends comma-joined label objects.
fn enc_labels_into(out: &mut String, ls: &Vec<Label>)
    ensures
        final(out)@ == old(out)@ + ser_labels(ls.deep_view()),
{
    let ghost base = out@;
    let ghost ld = ls.deep_view();
    let ghost f = |l: LabelV| ser_label(l);
    let mut i: usize = 0;
    while i < ls.len()
        invariant
            0 <= i <= ls.len(),
            ld.len() == ls.len(),
            ld == ls.deep_view(),
            f == (|l: LabelV| ser_label(l)),
            out@ == base + ser_join(ld.take(i as int), f),
        decreases ls.len() - i,
    {
        if i > 0 {
            push_char(out, ',');
        }
        enc_label_into(out, &ls[i]);
        proof {
            assert(ld[i as int] == ls@[i as int]@);
            lemma_ser_join_snoc(ld.take(i as int), ld[i as int], f);
            assert(ld.take(i + 1) =~= ld.take(i as int).push(ld[i as int]));
            assert(out@ =~= base + ser_join(ld.take(i + 1), f));
        }
        i = i + 1;
    }
    proof {
        assert(ld.take(ld.len() as int) =~= ld);
    }
}

/// The JSON text of a task.
#[verifier::rlimit(50)]
pub fn encode_task(t: &Task) -> (r: String)
    ensures
        r@ == ser_task(t@),
{
    let mut out = String::new();
    push_char(&mut out, '{');
    match &t.id {
        Some(v) => {
            out.append("\"id\":");
            enc_str_into(&mut out, v.as_str());
            push_char(&mut out, ',');
        },
        None => {},
    }
    out.append("\"props\":");
    enc_props_into(&mut out, &t.props);
    match &t.comments {
        Some(cs) => {
            out.append(",\"comments\":[");
            enc_comments_into(&mut out, cs);
            push_char(&mut out, ']');
        },
        None => {},
    }
    match &t.labels {
        Some(ls) => {
            out.append(",\"labels\":[");
            enc_labels_into(&mut out, ls);
            push_char(&mut out, ']');
        },
        None => {},
    }
    push_char(&mut out, '}');
    proof {
        assert(out@ =~= ser_task(t@));
    }
    out
}

/// The JSON text of an action: its tag as a bare string.
pub fn encode_action(a: &TaskAction) -> (r: String)
    ensures
        r@ == ser_action(*a),
{
    let mut out = String::new();
    push_char(&mut out, '"');
    match a {
        TaskAction::TaskCreate => out.append("TaskCreate"),
        TaskAction::UpdateStatus => out.append("UpdateStatus"),
        TaskAction::SetProperty => out.append("SetProperty"),
        TaskAction::EditProperty => out.append("EditProperty"),
        TaskAction::DeleteProperty => out.append("DeleteProperty"),
        TaskAction::SearchReplaceProperty => out.append("SearchReplaceProperty"),
        TaskAction::AddComment => out.append("AddComment"),
        TaskAction::DeleteComment => out.append("DeleteComment"),
        TaskAction::AddLabel => out.append("AddLabel"),
        TaskAction::UpdateLabel => out.append("UpdateLabel"),
        TaskAction::DeleteLabel => out.append("DeleteLabel"),
        TaskAction::UnknownUpdate => out.append("UnknownUpdate"),
    }
    push_char(&mut out, '"');
    proof {
        assert(out@ =~= ser_action(*a));
    }
    out
}

/// Whether `lit` occurs in `s` at position `i`.
pub open spec fn matches_at(s: Seq<char>, i: int, lit: Seq<char>) -> bool {
    0 <= i && i + lit.len() <= s.len() && s.subrange(i, i + lit.len()) == lit
}

pub open spec fn valid_esc(e: char) -> bool {
    e == '"' || e == '\\' || e == 'n' || e == 'r' || e == 't'
}

pub open spec fn unesc_char(e: char) -> char {
    if e == '"' {
        '"'
    } else if e == '\\' {
        '\\'
    } else if e == 'n' {
        '\n'
    } else if e == 'r' {
        '\r'
    } else {
        '\t'
    }
}

/// Scans a string body from `i` (after the opening quote) up to the closing
/// quote, undoing escapes; returns the content and the position after.
pub open spec fn p_str_body(s: Seq<char>, i: int, acc: Seq<char>) -> Option<(Seq<char>, int)>
    decreases s.len() - i,
{
    if i < 0 || i >= s.len() {
        None
    } else if s[i] == '"' {
        Some((acc, i + 1))
    } else if s[i] == '\\' {
        if i + 1 < s.len() && valid_esc(s[i + 1]) {
            p_str_body(s, i + 2, acc.push(unesc_char(s[i + 1])))
        } else {
            None
        }
    } else {
        p_str_body(s, i + 1, acc.push(s[i]))
    }
}

/// A JSON string at `i`.
pub open spec fn p_str(s: Seq<char>, i: int) -> Option<(Seq<char>, int)> {
    if 0 <= i && i < s.len() && s[i] == '"' {
        p_str_body(s, i + 1, Seq::<char>::empty())
    } else {
        None
    }
}

/// Key/value string pairs from `i` up to the closing brace.
pub open spec fn p_pairs(s: Seq<char>, i: int, acc: Seq<(Seq<char>, Seq<char>)>) -> Option<
    (Seq<(Seq<char>, Seq<char>)>, int),
>
    decreases s.len() - i,
{
    match p_str(s, i) {
        None => None,
        Some((k, j)) => if j < s.len() && s[j] == ':' {
            match p_str(s, j + 1) {
                None => None,
                Some((v, m)) => if m < s.len() && s[m] == ',' && m + 1 > i {
                    p_pairs(s, m + 1, acc.push((k, v)))
                } else if m < s.len() && s[m] == '}' {
                    Some((acc.push((k, v)), m + 1))
                } else {
                    None
                },
            }
        } else {
            None
        },
    }
}

/// A property object at `i`.
pub open spec fn p_props(s: Seq<char>, i: int) -> Option<(Seq<(Seq<char>, Seq<char>)>, int)> {
    if 0 <= i && i < s.len() && s[i] == '{' {
        if i + 1 < s.len() && s[i + 1] == '}' {
            Some((Seq::<(Seq<char>, Seq<char>)>::empty(), i + 2))
        } else {
            p_pairs(s, i + 1, Seq::<(Seq<char>, Seq<char>)>::empty())
        }
    } else {
        None
    }
}

/// A comment object at `i`.
pub open spec fn p_comment(s: Seq<char>, i: int) -> Option<(CommentV, int)> {
    if !(0 <= i && i < s.len() && s[i] == '{') {
        None
    } else {
        let idp: Option<(Option<Seq<char>>, int)> = if matches_at(s, i + 1, key_id()) {
            match p_str(s, i + 1 + key_id().len()) {
                Some((v, j)) => if j < s.len() && s[j] == ',' {
                    Some((Some(v), j + 1))
                } else {
                    None
                },
                None => None,
            }
        } else {
            Some((None, i + 1))
        };
        match idp {
            None => None,
            Some((cid, j1)) => if matches_at(s, j1, key_props()) {
                match p_props(s, j1 + key_props().len()) {
                    None => None,
                    Some((ps, j2)) => if matches_at(s, j2, key_text()) {
                        match p_str(s, j2 + key_text().len()) {
                            None => None,
                            Some((txt, j3)) => if j3 < s.len() && s[j3] == '}' {
                                Some((CommentV { id: cid, props: ps, text: txt }, j3 + 1))
                            } else {
                                None
                            },
                        }
                    } else {
                        None
                    },
                }
            } else {
                None
            },
        }
    }
}

/// A label object at `i`.
pub open spec fn p_label(s: Seq<char>, i: int) -> Option<(LabelV, int)> {
    if !(0 <= i && i < s.len() && s[i] == '{' && matches_at(s, i + 1, key_name())) {
        None
    } else {
        match p_str(s, i + 1 + key_name().len()) {
            None => None,
            Some((nm, j1)) => {
                let cpart: Option<(Option<Seq<char>>, int)> = if matches_at(s, j1, key_color()) {
                    match p_str(s, j1 + key_color().len()) {
                        Some((c, j)) => Some((Some(c), j)),
                        None => None,
                    }
                } else {
                    Some((None, j1))
                };
                match cpart {
                    None => None,
                    Some((col, j2)) => {
                        let dpart: Option<(Option<Seq<char>>, int)> = if matches_at(
                            s,
                            j2,
                            key_description(),
                        ) {
                            match p_str(s, j2 + key_description().len()) {
                                Some((d, j)) => Some((Some(d), j)),
                                None => None,
                            }
                        } else {
                            Some((None, j2))
                        };
                        match dpart {
                            None => None,
                            Some((dsc, j3)) => if j3 < s.len() && s[j3] == '}' {
                                Some((LabelV { name: nm, color: col, description: dsc }, j3 + 1))
                            } else {
                                None
                            },
                        }
                    },
                }
            },
        }
    }
}

/// Comment objects from `i` up to the closing bracket.
pub open spec fn p_comments(s: Seq<char>, i: int, acc: Seq<CommentV>) -> Option<
    (Seq<CommentV>, int),
>
    decreases s.len() - i,
{
    match p_comment(s, i) {
        None => None,
        Some((c, j)) => if j < s.len() && s[j] == ',' && j + 1 > i {
            p_comments(s, j + 1, acc.push(c))
        } else if j < s.len() && s[j] == ']' {
            Some((acc.push(c), j + 1))
        } else {
            None
        },
    }
}

/// Label objects from `i` up to the closing bracket.
pub open spec fn p_labels(s: Seq<char>, i: int, acc: Seq<LabelV>) -> Option<(Seq<LabelV>, int)>
    decreases s.len() - i,
{
    match p_label(s, i) {
        None => None,
        Some((l, j)) => if j < s.len() && s[j] == ',' && j + 1 > i {
            p_labels(s, j + 1, acc.push(l))
        } else if j < s.len() && s[j] == ']' {
            Some((acc.push(l), j + 1))
        } else {
            None
        },
    }
}

/// A task object at `i`.
pub open spec fn p_task(s: Seq<char>, i: int) -> Option<(TaskV, int)> {
    if !(0 <= i && i < s.len() && s[i] == '{') {
        None
    } else {
        let idp: Option<(Option<Seq<char>>, int)> = if matches_at(s, i + 1, key_id()) {
            match p_str(s, i + 1 + key_id().len()) {
                Some((v, j)) => if j < s.len() && s[j] == ',' {
                    Some((Some(v), j + 1))
                } else {
                    None
                },
                None => None,
            }
        } else {
            Some((None, i + 1))
        };
        match idp {
            None => None,
            Some((cid, j1)) => if matches_at(s, j1, key_props()) {
                match p_props(s, j1 + key_props().len()) {
                    None => None,
                    Some((ps, j2)) => {
                        let cpart: Option<(Option<Seq<CommentV>>, int)> = if matches_at(
                            s,
                            j2,
                            key_comments(),
                        ) {
                            let p = j2 + key_comments().len();
                            if p < s.len() && s[p] == ']' {
                                Some((Some(Seq::<CommentV>::empty()), p + 1))
                            } else {
                                match p_comments(s, p, Seq::<CommentV>::empty()) {
                                    Some((l, j)) => Some((Some(l), j)),
                                    None => None,
                                }
                            }
                        } else {
                            Some((None, j2))
                        };
                        match cpart {
                            None => None,
                            Some((copt, j3)) => {
                                let lpart: Option<(Option<Seq<LabelV>>, int)> = if matches_at(
                                    s,
                                    j3,
                                    key_labels(),
                                ) {
                                    let p = j3 + key_labels().len();
                                    if p < s.len() && s[p] == ']' {
                                        Some((Some(Seq::<LabelV>::empty()), p + 1))
                                    } else {
                                        match p_labels(s, p, Seq::<LabelV>::empty()) {
                                            Some((l, j)) => Some((Some(l), j)),
                                            None => None,
                                        }
                                    }
                                } else {
                                    Some((None, j3))
                                };
                                match lpart {
                                    None => None,
                                    Some((lopt, j4)) => if j4 < s.len() && s[j4] == '}' {
                                        Some((
                                            TaskV {
                                                id: cid,
                                                props: ps,
                                                comments: copt,
                                                labels: lopt,
                                            },
                                            j4 + 1,
                                        ))
                                    } else {
                                        None
                                    },
                                }
                            },
                        }
                    },
                }
            } else {
                None
            },
        }
    }
}

/// The task a whole blob holds, if it is well formed.
pub open spec fn parse_task(s: Seq<char>) -> Option<TaskV> {
    match p_task(s, 0) {
        Some((t, j)) => if j == s.len() {
            Some(t)
        } else {
            None
        },
        None => None,
    }
}

/// The action a tag names; unknown tags fall back to `UnknownUpdate`.
pub open spec fn action_of_tag(v: Seq<char>) -> TaskAction {
    if v == action_tag(TaskAction::TaskCreate) {
        TaskAction::TaskCreate
    } else if v == action_tag(TaskAction::UpdateStatus) {
        TaskAction::UpdateStatus
    } else if v == action_tag(TaskAction::SetProperty) {
        TaskAction::SetProperty
    } else if v == action_tag(TaskAction::EditProperty) {
        TaskAction::EditProperty
    } else if v == action_tag(TaskAction::DeleteProperty) {
        TaskAction::DeleteProperty
    } else if v == action_tag(TaskAction::SearchReplaceProperty) {
        TaskAction::SearchReplaceProperty
    } else if v == action_tag(TaskAction::AddComment) {
        TaskAction::AddComment
    } else if v == action_tag(TaskAction::DeleteComment) {
        TaskAction::DeleteComment
    } else if v == action_tag(TaskAction::AddLabel) {
        TaskAction::AddLabel
    } else if v == action_tag(TaskAction::UpdateLabel) {
        TaskAction::UpdateLabel
    } else if v == action_tag(TaskAction::DeleteLabel) {
        TaskAction::DeleteLabel
    } else {
        TaskAction::UnknownUpdate
    }
}

/// The action a whole blob holds, if it is a JSON string.
pub open spec fn parse_action(s: Seq<char>) -> Option<TaskAction> {
    match p_str(s, 0) {
        Some((v, j)) => if j == s.len() {
            Some(action_of_tag(v))
        } else {
            None
        },
        None => None,
    }
}

/// Reading an escaped body gives back what was escaped.
pub proof fn lemma_p_str_body_inv(s: Seq<char>, i: int, acc: Seq<char>, v: Seq<char>)
    requires
        0 <= i,
        i + esc(v).len() + 1 <= s.len(),
        s.subrange(i, i + esc(v).len()) == esc(v),
        s[i + esc(v).len()] == '"',
    ensures
        p_str_body(s, i, acc) == Some((acc + v, i + esc(v).len() + 1)),
    decreases v.len(),
{
    if v.len() == 0 {
        assert(s[i] == '"');
        assert(acc + v =~= acc);
    } else {
        let c = v[0];
        let v2 = v.drop_first();
        assert(esc(v) == esc_char(c) + esc(v2));
        let e1 = esc_char(c);
        let e2 = esc(v2);
        assert(s.subrange(i, i + e1.len()) =~= e1) by {
            assert forall|t: int| 0 <= t < e1.len() implies s.subrange(i, i + e1.len())[t]
                == e1[t] by {
                assert(s.subrange(i, i + esc(v).len())[t] == esc(v)[t]);
                assert(esc(v)[t] == e1[t]);
            }
        }
        assert(s.subrange(i + e1.len(), i + e1.len() + e2.len()) =~= e2) by {
            assert forall|t: int| 0 <= t < e2.len() implies s.subrange(
                i + e1.len(),
                i + e1.len() + e2.len(),
            )[t] == e2[t] by {
                assert(s.subrange(i, i + esc(v).len())[e1.len() + t] == esc(v)[e1.len() + t]);
                assert(esc(v)[e1.len() + t] == e2[t]);
            }
        }
        if c == '"' || c == '\\' || c == '\n' || c == '\r' || c == '\t' {
            assert(e1.len() == 2);
            assert(s[i] == '\\');
            assert(valid_esc(s[i + 1]));
            assert(unesc_char(s[i + 1]) == c);
            lemma_p_str_body_inv(s, i + 2, acc.push(c), v2);
            assert(acc.push(c) + v2 =~= acc + v);
        } else {
            assert(e1.len() == 1);
            assert(e1[0] == c);
            assert(s.subrange(i, i + e1.len())[0] == e1[0]);
            assert(s[i] == c);
            lemma_p_str_body_inv(s, i + 1, acc.push(c), v2);
            assert(acc.push(c) + v2 =~= acc + v);
        }
    }
}

/// Reading a JSON string gives back what was written.
pub proof fn lemma_p_str_inv(s: Seq<char>, i: int, v: Seq<char>)
    requires
        matches_at(s, i, ser_str(v)),
    ensures
        p_str(s, i) == Some((v, i + ser_str(v).len())),
{
    let w = ser_str(v);
    assert(s[i] == '"') by {
        assert(s.subrange(i, i + w.len())[0] == w[0]);
    }
    assert(s.subrange(i + 1, i + 1 + esc(v).len()) =~= esc(v)) by {
        assert forall|t: int| 0 <= t < esc(v).len() implies s.subrange(
            i + 1,
            i + 1 + esc(v).len(),
        )[t] == esc(v)[t] by {
            assert(s.subrange(i, i + w.len())[1 + t] == w[1 + t]);
            assert(w[1 + t] == esc(v)[t]);
        }
    }
    assert(s[i + 1 + esc(v).len()] == '"') by {
        assert(s.subrange(i, i + w.len())[w.len() - 1] == w[w.len() - 1]);
    }
    lemma_p_str_body_inv(s, i + 1, Seq::<char>::empty(), v);
    assert(Seq::<char>::empty() + v =~= v);
}

/// Every action tag is free of quotes and backslashes.
pub proof fn lemma_tag_plain(a: TaskAction)
    ensures
        forall|k: int| 0 <= k < action_tag(a).len() ==> action_tag(a)[k] != '"' && action_tag(a)[k]
            != '\\',
        action_tag(a).len() > 0,
{
    reveal_strlit("TaskCreate");
    reveal_strlit("UpdateStatus");
    reveal_strlit("SetProperty");
    reveal_strlit("EditProperty");
    reveal_strlit("DeleteProperty");
    reveal_strlit("SearchReplaceProperty");
    reveal_strlit("AddComment");
    reveal_strlit("DeleteComment");
    reveal_strlit("AddLabel");
    reveal_strlit("UpdateLabel");
    reveal_strlit("DeleteLabel");
    reveal_strlit("UnknownUpdate");
}

/// A plain string (no escapes needed) escapes to itself.
pub proof fn lemma_esc_plain(v: Seq<char>)
    requires
        forall|k: int| 0 <= k < v.len() ==> v[k] != '"' && v[k] != '\\' && v[k] != '\n' && v[k]
            != '\r' && v[k] != '\t',
    ensures
        esc(v) == v,
    decreases v.len(),
{
    if v.len() > 0 {
        assert(forall|k: int| 0 <= k < v.drop_first().len() ==> v.drop_first()[k] == v[k + 1]);
        lemma_esc_plain(v.drop_first());
        assert(esc(v) =~= v);
    }
}

/// Reading back an encoded action gives the action.
pub proof fn lemma_action_round_trip(a: TaskAction)
    ensures
        parse_action(ser_action(a)) == Some(a),
{
    reveal_strlit("TaskCreate");
    reveal_strlit("UpdateStatus");
    reveal_strlit("SetProperty");
    reveal_strlit("EditProperty");
    reveal_strlit("DeleteProperty");
    reveal_strlit("SearchReplaceProperty");
    reveal_strlit("AddComment");
    reveal_strlit("DeleteComment");
    reveal_strlit("AddLabel");
    reveal_strlit("UpdateLabel");
    reveal_strlit("DeleteLabel");
    reveal_strlit("UnknownUpdate");
    let tag = action_tag(a);
    let s = ser_action(a);
    lemma_tag_plain(a);
    assert(forall|k: int| 0 <= k < tag.len() ==> tag[k] != '\n' && tag[k] != '\r' && tag[k]
        != '\t');
    lemma_esc_plain(tag);
    assert(s =~= ser_str(tag));
    assert(matches_at(s, 0, ser_str(tag))) by {
        assert(s.subrange(0, s.len() as int) =~= s);
    }
    lemma_p_str_inv(s, 0, tag);
    assert(parse_action(s) == Some(action_of_tag(tag)));
    assert(action_of_tag(tag) == a);
}

/// A match of a concatenation is a match of each part in turn.
pub proof fn lemma_match_split(s: Seq<char>, i: int, a: Seq<char>, b: Seq<char>)
    requires
        matches_at(s, i, a + b),
    ensures
        matches_at(s, i, a),
        matches_at(s, i + a.len(), b),
{
    assert(s.subrange(i, i + a.len()) =~= a) by {
        assert forall|t: int| 0 <= t < a.len() implies s.subrange(i, i + a.len())[t] == a[t] by {
            assert(s.subrange(i, i + (a + b).len())[t] == (a + b)[t]);
        }
    }
    assert(s.subrange(i + a.len(), i + a.len() + b.len()) =~= b) by {
        assert forall|t: int| 0 <= t < b.len() implies s.subrange(
            i + a.len(),
            i + a.len() + b.len(),
        )[t] == b[t] by {
            assert(s.subrange(i, i + (a + b).len())[a.len() + t] == (a + b)[a.len() + t]);
        }
    }
}

/// A match of a single character pins that character down.
pub proof fn lemma_match_char(s: Seq<char>, i: int, c: char)
    requires
        matches_at(s, i, seq![c]),
    ensures
        0 <= i < s.len() && s[i] == c,
{
    assert(s.subrange(i, i + 1)[0] == seq![c][0]);
}

/// Reading key/value pairs gives back what was written.
pub proof fn lemma_p_pairs_inv(s: Seq<char>, i: int, acc: Seq<(Seq<char>, Seq<char>)>, ps: Seq<
    (Seq<char>, Seq<char>),
>)
    requires
        ps.len() > 0,
        matches_at(s, i, ser_pairs(ps) + seq!['}']),
    ensures
        p_pairs(s, i, acc) == Some((acc + ps, i + ser_pairs(ps).len() + 1)),
    decreases ps.len(),
{
    let p0 = ps[0];
    let rest = ps.drop_first();
    let a = ser_str(p0.0);
    let b = ser_str(p0.1);
    let pair = ser_pair(p0);
    assert(pair == a + seq![':'] + b);
    if ps.len() == 1 {
        assert(ser_pairs(ps) == pair);
        assert(matches_at(s, i, a + seq![':'] + b + seq!['}'])) by {
            assert(a + seq![':'] + b + seq!['}'] =~= ser_pairs(ps) + seq!['}']);
        }
        lemma_match_split(s, i, a + seq![':'] + b, seq!['}']);
        lemma_match_split(s, i, a + seq![':'], b);
        lemma_match_split(s, i, a, seq![':']);
        lemma_p_str_inv(s, i, p0.0);
        lemma_match_char(s, i + a.len(), ':');
        lemma_p_str_inv(s, i + a.len() + 1, p0.1);
        lemma_match_char(s, i + a.len() + 1 + b.len(), '}');
        assert(acc.push(p0) =~= acc + ps);
    } else {
        assert(ser_pairs(ps) == pair + seq![','] + ser_pairs(rest)) by {
            assert(ser_join(ps, |p: (Seq<char>, Seq<char>)| ser_pair(p)) == ser_pair(ps[0])
                + seq![','] + ser_join(rest, |p: (Seq<char>, Seq<char>)| ser_pair(p)));
        }
        assert(matches_at(s, i, a + seq![':'] + b + seq![','] + (ser_pairs(rest) + seq!['}'])))
            by {
            assert(a + seq![':'] + b + seq![','] + (ser_pairs(rest) + seq!['}']) =~= ser_pairs(ps)
                + seq!['}']);
        }
        lemma_match_split(s, i, a + seq![':'] + b + seq![','], ser_pairs(rest) + seq!['}']);
        lemma_match_split(s, i, a + seq![':'] + b, seq![',']);
        lemma_match_split(s, i, a + seq![':'], b);
        lemma_match_split(s, i, a, seq![':']);
        lemma_p_str_inv(s, i, p0.0);
        lemma_match_char(s, i + a.len(), ':');
        lemma_p_str_inv(s, i + a.len() + 1, p0.1);
        let m = i + a.len() + 1 + b.len();
        lemma_match_char(s, m, ',');
        lemma_p_pairs_inv(s, m + 1, acc.push(p0), rest);
        assert(acc.push(p0) + rest =~= acc + ps);
        assert(m + 1 + ser_pairs(rest).len() + 1 == i + ser_pairs(ps).len() + 1);
    }
}

/// Reading a property object gives back what was written.
pub proof fn lemma_p_props_inv(s: Seq<char>, i: int, ps: Seq<(Seq<char>, Seq<char>)>)
    requires
        matches_at(s, i, ser_props(ps)),
    ensures
        p_props(s, i) == Some((ps, i + ser_props(ps).len())),
{
    let w = ser_props(ps);
    assert(w == seq!['{'] + ser_pairs(ps) + seq!['}']);
    assert(matches_at(s, i, seq!['{'] + (ser_pairs(ps) + seq!['}']))) by {
        assert(seq!['{'] + (ser_pairs(ps) + seq!['}']) =~= w);
    }
    lemma_match_split(s, i, seq!['{'], ser_pairs(ps) + seq!['}']);
    lemma_match_char(s, i, '{');
    if ps.len() == 0 {
        assert(ser_pairs(ps) =~= Seq::<char>::empty());
        lemma_match_char(s, i + 1, '}');
    } else {
        let p0 = ps[0];
        lemma_p_pairs_inv(s, i + 1, Seq::<(Seq<char>, Seq<char>)>::empty(), ps);
        assert(Seq::<(Seq<char>, Seq<char>)>::empty() + ps =~= ps);
        // the first pair opens with a quote, so the object is not empty
        assert(s[i + 1] == '"') by {
            let a = ser_str(p0.0);
            assert(ser_pairs(ps)[0] == a[0]) by {
                if ps.len() == 1 {
                    assert(ser_pairs(ps) == ser_pair(p0));
                } else {
                    assert(ser_pairs(ps) == ser_pair(p0) + seq![','] + ser_pairs(ps.drop_first()))
                        by {
                        assert(ser_join(ps, |p: (Seq<char>, Seq<char>)| ser_pair(p)) == ser_pair(
                            ps[0],
                        ) + seq![','] + ser_join(
                            ps.drop_first(),
                            |p: (Seq<char>, Seq<char>)| ser_pair(p),
                        ));
                    }
                }
                assert(ser_pair(p0) == a + seq![':'] + ser_str(p0.1));
            }
            assert(s.subrange(i + 1, i + 1 + (ser_pairs(ps) + seq!['}']).len())[0] == (ser_pairs(
                ps,
            ) + seq!['}'])[0]);
        }
    }
}

/// Reading a comment object gives back what was written.
pub proof fn lemma_p_comment_inv(s: Seq<char>, i: int, c: CommentV)
    requires
        matches_at(s, i, ser_comment(c)),
    ensures
        p_comment(s, i) == Some((c, i + ser_comment(c).len())),
{
    reveal_strlit("\"id\":");
    reveal_strlit("\"props\":");
    let idpart = match c.id {
        Some(v) => key_id() + ser_str(v) + seq![','],
        None => Seq::<char>::empty(),
    };
    let tail1 = idpart + (key_props() + (ser_props(c.props) + (key_text() + (ser_str(c.text)
        + seq!['}']))));
    assert(seq!['{'] + tail1 =~= ser_comment(c));
    lemma_match_split(s, i, seq!['{'], tail1);
    lemma_match_char(s, i, '{');
    lemma_match_split(
        s,
        i + 1,
        idpart,
        key_props() + (ser_props(c.props) + (key_text() + (ser_str(c.text) + seq!['}']))),
    );
    let j1 = i + 1 + idpart.len();
    lemma_match_split(
        s,
        j1,
        key_props(),
        ser_props(c.props) + (key_text() + (ser_str(c.text) + seq!['}'])),
    );
    let j2 = j1 + key_props().len();
    lemma_match_split(s, j2, ser_props(c.props), key_text() + (ser_str(c.text) + seq!['}']));
    let j3 = j2 + ser_props(c.props).len();
    lemma_match_split(s, j3, key_text(), ser_str(c.text) + seq!['}']);
    let j4 = j3 + key_text().len();
    lemma_match_split(s, j4, ser_str(c.text), seq!['}']);
    let j5 = j4 + ser_str(c.text).len();
    lemma_match_char(s, j5, '}');
    lemma_p_props_inv(s, j2, c.props);
    lemma_p_str_inv(s, j4, c.text);
    match c.id {
        Some(v) => {
            assert(idpart =~= key_id() + (ser_str(v) + seq![',']));
            lemma_match_split(s, i + 1, key_id(), ser_str(v) + seq![',']);
            lemma_match_split(s, i + 1 + key_id().len(), ser_str(v), seq![',']);
            lemma_p_str_inv(s, i + 1 + key_id().len(), v);
            lemma_match_char(s, i + 1 + key_id().len() + ser_str(v).len(), ',');
        },
        None => {
            assert(!matches_at(s, i + 1, key_id())) by {
                if matches_at(s, i + 1, key_id()) {
                    assert(s.subrange(i + 1, i + 1 + key_id().len())[1] == key_id()[1]);
                    assert(s.subrange(j1, j1 + key_props().len())[1] == key_props()[1]);
                }
            }
        },
    }
}

/// Reading a label object gives back what was written.
pub proof fn lemma_p_label_inv(s: Seq<char>, i: int, l: LabelV)
    requires
        matches_at(s, i, ser_label(l)),
    ensures
        p_label(s, i) == Some((l, i + ser_label(l).len())),
{
    reveal_strlit("\"name\":");
    reveal_strlit(",\"color\":");
    reveal_strlit(",\"description\":");
    let cpart = match l.color {
        Some(v) => key_color() + ser_str(v),
        None => Seq::<char>::empty(),
    };
    let dpart = match l.description {
        Some(v) => key_description() + ser_str(v),
        None => Seq::<char>::empty(),
    };
    let tail1 = key_name() + (ser_str(l.name) + (cpart + (dpart + seq!['}'])));
    assert(seq!['{'] + tail1 =~= ser_label(l));
    lemma_match_split(s, i, seq!['{'], tail1);
    lemma_match_char(s, i, '{');
    lemma_match_split(s, i + 1, key_name(), ser_str(l.name) + (cpart + (dpart + seq!['}'])));
    let j0 = i + 1 + key_name().len();
    lemma_match_split(s, j0, ser_str(l.name), cpart + (dpart + seq!['}']));
    lemma_p_str_inv(s, j0, l.name);
    let j1 = j0 + ser_str(l.name).len();
    lemma_match_split(s, j1, cpart, dpart + seq!['}']);
    let j2 = j1 + cpart.len();
    lemma_match_split(s, j2, dpart, seq!['}']);
    let j3 = j2 + dpart.len();
    lemma_match_char(s, j3, '}');
    match l.color {
        Some(v) => {
            assert(cpart =~= key_color() + ser_str(v));
            lemma_match_split(s, j1, key_color(), ser_str(v));
            lemma_p_str_inv(s, j1 + key_color().len(), v);
        },
        None => {
            assert(!matches_at(s, j1, key_color())) by {
                if matches_at(s, j1, key_color()) {
                    assert(s.subrange(j1, j1 + key_color().len())[2] == key_color()[2]);
                    match l.description {
                        Some(_) => {
                            assert(s.subrange(j2, j2 + dpart.len())[2] == dpart[2]);
                            assert(dpart[2] == key_description()[2]);
                        },
                        None => {
                            assert(s.subrange(j1, j1 + key_color().len())[0] == key_color()[0]);
                            assert(s[j3] == '}');
                        },
                    }
                }
            }
        },
    }
    match l.description {
        Some(v) => {
            assert(dpart =~= key_description() + ser_str(v));
            lemma_match_split(s, j2, key_description(), ser_str(v));
            lemma_p_str_inv(s, j2 + key_description().len(), v);
        },
        None => {
            assert(!matches_at(s, j2, key_description())) by {
                if matches_at(s, j2, key_description()) {
                    let kd = key_description();
                    assert(s.subrange(j2, j2 + kd.len())[0] == kd[0]);
                    assert(s[j3] == '}');
                }
            }
        },
    }
}

/// Reading a comment list gives back what was written.
pub proof fn lemma_p_comments_inv(s: Seq<char>, i: int, acc: Seq<CommentV>, cs: Seq<CommentV>)
    requires
        cs.len() > 0,
        matches_at(s, i, ser_comments(cs) + seq![']']),
    ensures
        p_comments(s, i, acc) == Some((acc + cs, i + ser_comments(cs).len() + 1)),
    decreases cs.len(),
{
    let c0 = cs[0];
    let rest = cs.drop_first();
    let a = ser_comment(c0);
    if cs.len() == 1 {
        assert(ser_comments(cs) == a);
        lemma_match_split(s, i, a, seq![']']);
        lemma_p_comment_inv(s, i, c0);
        lemma_match_char(s, i + a.len(), ']');
        assert(acc.push(c0) =~= acc + cs);
    } else {
        assert(ser_comments(cs) == a + seq![','] + ser_comments(rest)) by {
            assert(ser_join(cs, |c: CommentV| ser_comment(c)) == ser_comment(cs[0]) + seq![',']
                + ser_join(rest, |c: CommentV| ser_comment(c)));
        }
        assert(matches_at(s, i, a + seq![','] + (ser_comments(rest) + seq![']']))) by {
            assert(a + seq![','] + (ser_comments(rest) + seq![']']) =~= ser_comments(cs)
                + seq![']']);
        }
        lemma_match_split(s, i, a + seq![','], ser_comments(rest) + seq![']']);
        lemma_match_split(s, i, a, seq![',']);
        lemma_p_comment_inv(s, i, c0);
        lemma_match_char(s, i + a.len(), ',');
        lemma_p_comments_inv(s, i + a.len() + 1, acc.push(c0), rest);
        assert(acc.push(c0) + rest =~= acc + cs);
    }
}

/// Reading a label list gives back what was written.
pub proof fn lemma_p_labels_inv(s: Seq<char>, i: int, acc: Seq<LabelV>, ls: Seq<LabelV>)
    requires
        ls.len() > 0,
        matches_at(s, i, ser_labels(ls) + seq![']']),
    ensures
        p_labels(s, i, acc) == Some((acc + ls, i + ser_labels(ls).len() + 1)),
    decreases ls.len(),
{
    let l0 = ls[0];
    let rest = ls.drop_first();
    let a = ser_label(l0);
    if ls.len() == 1 {
        assert(ser_labels(ls) == a);
        lemma_match_split(s, i, a, seq![']']);
        lemma_p_label_inv(s, i, l0);
        lemma_match_char(s, i + a.len(), ']');
        assert(acc.push(l0) =~= acc + ls);
    } else {
        assert(ser_labels(ls) == a + seq![','] + ser_labels(rest)) by {
            assert(ser_join(ls, |l: LabelV| ser_label(l)) == ser_label(ls[0]) + seq![',']
                + ser_join(rest, |l: LabelV| ser_label(l)));
        }
        assert(matches_at(s, i, a + seq![','] + (ser_labels(rest) + seq![']']))) by {
            assert(a + seq![','] + (ser_labels(rest) + seq![']']) =~= ser_labels(ls) + seq![']']);
        }
        lemma_match_split(s, i, a + seq![','], ser_labels(rest) + seq![']']);
        lemma_match_split(s, i, a, seq![',']);
        lemma_p_label_inv(s, i, l0);
        lemma_match_char(s, i + a.len(), ',');
        lemma_p_labels_inv(s, i + a.len() + 1, acc.push(l0), rest);
        assert(acc.push(l0) + rest =~= acc + ls);
    }
}

/// Where the props key stands, the id key cannot.
proof fn lemma_not_id_key(s: Seq<char>, i: int)
    requires
        matches_at(s, i, key_props()),
    ensures
        !matches_at(s, i, key_id()),
{
    reveal_strlit("\"id\":");
    reveal_strlit("\"props\":");
    if matches_at(s, i, key_id()) {
        assert(s.subrange(i, i + key_id().len())[1] == key_id()[1]);
        assert(s.subrange(i, i + key_props().len())[1] == key_props()[1]);
    }
}

/// Where the labels key stands, the comments key cannot.
proof fn lemma_not_comments_key(s: Seq<char>, j: int)
    requires
        matches_at(s, j, key_labels()),
    ensures
        !matches_at(s, j, key_comments()),
{
    reveal_strlit(",\"comments\":[");
    reveal_strlit(",\"labels\":[");
    if matches_at(s, j, key_comments()) {
        assert(s.subrange(j, j + key_comments().len())[2] == key_comments()[2]);
        assert(s.subrange(j, j + key_labels().len())[2] == key_labels()[2]);
    }
}

/// At a closing brace no comma-led key can stand.
proof fn lemma_no_key_at_close(s: Seq<char>, j: int)
    requires
        0 <= j < s.len(),
        s[j] == '}',
    ensures
        !matches_at(s, j, key_comments()),
        !matches_at(s, j, key_labels()),
{
    reveal_strlit(",\"comments\":[");
    reveal_strlit(",\"labels\":[");
    if matches_at(s, j, key_comments()) {
        assert(s.subrange(j, j + key_comments().len())[0] == key_comments()[0]);
    }
    if matches_at(s, j, key_labels()) {
        assert(s.subrange(j, j + key_labels().len())[0] == key_labels()[0]);
    }
}

/// A comment object opens with a brace.
proof fn lemma_ser_comment_opens(c: CommentV)
    ensures
        ser_comment(c).len() > 0,
        ser_comment(c)[0] == '{',
{
    assert(ser_comment(c) =~= seq!['{'] + ((match c.id {
        Some(v) => key_id() + ser_str(v) + seq![','],
        None => Seq::<char>::empty(),
    }) + key_props() + ser_props(c.props) + key_text() + ser_str(c.text) + seq!['}']));
}

/// A label object opens with a brace.
proof fn lemma_ser_label_opens(l: LabelV)
    ensures
        ser_label(l).len() > 0,
        ser_label(l)[0] == '{',
{
    assert(ser_label(l) =~= seq!['{'] + (key_name() + ser_str(l.name) + (match l.color {
        Some(v) => key_color() + ser_str(v),
        None => Seq::<char>::empty(),
    }) + (match l.description {
        Some(v) => key_description() + ser_str(v),
        None => Seq::<char>::empty(),
    }) + seq!['}']));
}

/// A non-empty comment list opens with a brace.
proof fn lemma_ser_comments_opens(cs: Seq<CommentV>)
    requires
        cs.len() > 0,
    ensures
        ser_comments(cs).len() > 0,
        ser_comments(cs)[0] == '{',
{
    lemma_ser_comment_opens(cs[0]);
    if cs.len() > 1 {
        assert(ser_join(cs, |c: CommentV| ser_comment(c)) == ser_comment(cs[0]) + seq![',']
            + ser_join(cs.drop_first(), |c: CommentV| ser_comment(c)));
    }
}

/// A non-empty label list opens with a brace.
proof fn lemma_ser_labels_opens(ls: Seq<LabelV>)
    requires
        ls.len() > 0,
    ensures
        ser_labels(ls).len() > 0,
        ser_labels(ls)[0] == '{',
{
    lemma_ser_label_opens(ls[0]);
    if ls.len() > 1 {
        assert(ser_join(ls, |l: LabelV| ser_label(l)) == ser_label(ls[0]) + seq![',']
            + ser_join(ls.drop_first(), |l: LabelV| ser_label(l)));
    }
}

/// Reading a task object gives back what was written.
#[verifier::rlimit(100)]
#[verifier::spinoff_prover]
pub proof fn lemma_p_task_inv(s: Seq<char>, i: int, t: TaskV)
    requires
        matches_at(s, i, ser_task(t)),
    ensures
        p_task(s, i) == Some((t, i + ser_task(t).len())),
{
    let idpart = match t.id {
        Some(v) => key_id() + ser_str(v) + seq![','],
        None => Seq::<char>::empty(),
    };
    let cpart = match t.comments {
        Some(cs) => key_comments() + ser_comments(cs) + seq![']'],
        None => Seq::<char>::empty(),
    };
    let lpart = match t.labels {
        Some(ls) => key_labels() + ser_labels(ls) + seq![']'],
        None => Seq::<char>::empty(),
    };
    let tail1 = idpart + (key_props() + (ser_props(t.props) + (cpart + (lpart + seq!['}']))));
    assert(seq!['{'] + tail1 =~= ser_task(t));
    lemma_match_split(s, i, seq!['{'], tail1);
    lemma_match_char(s, i, '{');
    lemma_match_split(
        s,
        i + 1,
        idpart,
        key_props() + (ser_props(t.props) + (cpart + (lpart + seq!['}']))),
    );
    let j1 = i + 1 + idpart.len();
    lemma_match_split(s, j1, key_props(), ser_props(t.props) + (cpart + (lpart + seq!['}'])));
    let jp = j1 + key_props().len();
    lemma_match_split(s, jp, ser_props(t.props), cpart + (lpart + seq!['}']));
    lemma_p_props_inv(s, jp, t.props);
    let j2 = jp + ser_props(t.props).len();
    lemma_match_split(s, j2, cpart, lpart + seq!['}']);
    let j3 = j2 + cpart.len();
    lemma_match_split(s, j3, lpart, seq!['}']);
    let j4 = j3 + lpart.len();
    lemma_match_char(s, j4, '}');
    match t.id {
        Some(v) => {
            assert(idpart =~= key_id() + (ser_str(v) + seq![',']));
            lemma_match_split(s, i + 1, key_id(), ser_str(v) + seq![',']);
            lemma_match_split(s, i + 1 + key_id().len(), ser_str(v), seq![',']);
            lemma_p_str_inv(s, i + 1 + key_id().len(), v);
            lemma_match_char(s, i + 1 + key_id().len() + ser_str(v).len(), ',');
        },
        None => {
            lemma_not_id_key(s, i + 1);
        },
    }
    match t.comments {
        Some(cs) => {
            assert(cpart =~= key_comments() + (ser_comments(cs) + seq![']']));
            lemma_match_split(s, j2, key_comments(), ser_comments(cs) + seq![']']);
            let p = j2 + key_comments().len();
            if cs.len() == 0 {
                assert(ser_comments(cs) =~= Seq::<char>::empty());
                lemma_match_char(s, p, ']');
            } else {
                lemma_p_comments_inv(s, p, Seq::<CommentV>::empty(), cs);
                assert(Seq::<CommentV>::empty() + cs =~= cs);
                assert(s[p] == '{') by {
                    lemma_ser_comments_opens(cs);
                    assert(s.subrange(p, p + (ser_comments(cs) + seq![']']).len())[0]
                        == (ser_comments(cs) + seq![']'])[0]);
                }
            }
        },
        None => {
            match t.labels {
                Some(ls) => {
                    assert(matches_at(s, j3, key_labels())) by {
                        assert(lpart =~= key_labels() + (ser_labels(ls) + seq![']']));
                        lemma_match_split(s, j3, key_labels(), ser_labels(ls) + seq![']']);
                    }
                    lemma_not_comments_key(s, j2);
                },
                None => {
                    lemma_no_key_at_close(s, j4);
                },
            }
        },
    }
    match t.labels {
        Some(ls) => {
            assert(lpart =~= key_labels() + (ser_labels(ls) + seq![']']));
            lemma_match_split(s, j3, key_labels(), ser_labels(ls) + seq![']']);
            let p = j3 + key_labels().len();
            if ls.len() == 0 {
                assert(ser_labels(ls) =~= Seq::<char>::empty());
                lemma_match_char(s, p, ']');
            } else {
                lemma_p_labels_inv(s, p, Seq::<LabelV>::empty(), ls);
                assert(Seq::<LabelV>::empty() + ls =~= ls);
                assert(s[p] == '{') by {
                    lemma_ser_labels_opens(ls);
                    assert(s.subrange(p, p + (ser_labels(ls) + seq![']']).len())[0] == (ser_labels(
                        ls,
                    ) + seq![']'])[0]);
                }
            }
        },
        None => {
            lemma_no_key_at_close(s, j4);
        },
    }
}

/// Decoding an encoded task yields the task back, field for field.
pub proof fn lemma_task_round_trip(t: TaskV)
    ensures
        parse_task(ser_task(t)) == Some(t),
{
    let s = ser_task(t);
    assert(matches_at(s, 0, ser_task(t))) by {
        assert(s.subrange(0, s.len() as int) =~= s);
    }
    lemma_p_task_inv(s, 0, t);
}

/// Whether `lit` occurs in `s` at position `i`.
fn match_at(s: &str, n: usize, i: usize, lit: &str) -> (r: bool)
    requires
        n == s@.len(),
    ensures
        r == matches_at(s@, i as int, lit@),
{
    let m = lit.unicode_len();
    if i > n || m > n - i {
        return false;
    }
    let mut k: usize = 0;
    while k < m
        invariant
            0 <= k <= m,
            n == s@.len(),
            m == lit@.len(),
            i + m <= n,
            forall|t: int| 0 <= t < k ==> s@[i + t] == lit@[t],
        decreases m - k,
    {
        if s.get_char(i + k) != lit.get_char(k) {
            proof {
                assert(!matches_at(s@, i as int, lit@)) by {
                    if matches_at(s@, i as int, lit@) {
                        assert(s@.subrange(i as int, i + lit@.len())[k as int] == lit@[k as int]);
                    }
                }
            }
            return false;
        }
        k = k + 1;
    }
    proof {
        assert(s@.subrange(i as int, i + lit@.len()) =~= lit@);
    }
    true
}

/// Reads a string body, undoing escapes, as `p_str_body` describes.
fn d_str_body(s: &str, n: usize, i: usize, acc: String) -> (r: Option<(String, usize)>)
    requires
        n == s@.len(),
    ensures
        p_str_body(s@, i as int, acc@) is Some <==> r is Some,
        r matches Some(p) ==> (p_str_body(s@, i as int, acc@) matches Some(q) && p.0@ == q.0
            && p.1 as int == q.1),
    decreases n - i,
{
    if i >= n {
        None
    } else {
        let c = s.get_char(i);
        if c == '"' {
            Some((acc, i + 1))
        } else if c == '\\' {
            if i + 1 < n {
                let e = s.get_char(i + 1);
                if e == '"' || e == '\\' || e == 'n' || e == 'r' || e == 't' {
                    let u: char = if e == 'n' {
                        '\n'
                    } else if e == 'r' {
                        '\r'
                    } else if e == 't' {
                        '\t'
                    } else {
                        e
                    };
                    let mut acc2 = acc;
                    push_char(&mut acc2, u);
                    d_str_body(s, n, i + 2, acc2)
                } else {
                    None
                }
            } else {
                None
            }
        } else {
            let mut acc2 = acc;
            push_char(&mut acc2, c);
            d_str_body(s, n, i + 1, acc2)
        }
    }
}

/// Reads a JSON string, as `p_str` describes.
fn d_str(s: &str, n: usize, i: usize) -> (r: Option<(String, usize)>)
    requires
        n == s@.len(),
    ensures
        p_str(s@, i as int) is Some <==> r is Some,
        r matches Some(p) ==> (p_str(s@, i as int) matches Some(q) && p.0@ == q.0 && p.1 as int
            == q.1),
{
    if i < n && s.get_char(i) == '"' {
        d_str_body(s, n, i + 1, String::new())
    } else {
        None
    }
}

/// Reads key/value pairs up to the closing brace, as `p_pairs` describes.
fn d_pairs(s: &str, n: usize, i: usize, acc: Vec<(String, String)>) -> (r: Option<
    (Vec<(String, String)>, usize),
>)
    requires
        n == s@.len(),
    ensures
        p_pairs(s@, i as int, acc.deep_view()) is Some <==> r is Some,
        r matches Some(p) ==> (p_pairs(s@, i as int, acc.deep_view()) matches Some(q)
            && p.0.deep_view() == q.0 && p.1 as int == q.1),
    decreases n - i,
{
    let ghost acc0 = acc.deep_view();
    match d_str(s, n, i) {
        None => None,
        Some((k, j)) => {
            if j < n && s.get_char(j) == ':' {
                match d_str(s, n, j + 1) {
                    None => None,
                    Some((v, m)) => {
                        let ghost kv = (k@, v@);
                        if m < n && s.get_char(m) == ',' && m + 1 > i {
                            let mut acc2 = acc;
                            let ghost before = acc2@;
                            let pair = (k, v);
                            let ghost pairg = pair;
                            acc2.push(pair);
                            proof {
                                lemma_vec_deep(&acc2);
                                lemma_seq_deep_push(before, pairg);
                                assert(acc2.deep_view() =~= acc0.push(kv));
                            }
                            d_pairs(s, n, m + 1, acc2)
                        } else if m < n && s.get_char(m) == '}' {
                            let mut acc2 = acc;
                            let ghost before = acc2@;
                            let pair = (k, v);
                            let ghost pairg = pair;
                            acc2.push(pair);
                            proof {
                                lemma_vec_deep(&acc2);
                                lemma_seq_deep_push(before, pairg);
                                assert(acc2.deep_view() =~= acc0.push(kv));
                            }
                            Some((acc2, m + 1))
                        } else {
                            None
                        }
                    },
                }
            } else {
                None
            }
        },
    }
}

/// Reads a property object, as `p_props` describes.
fn d_props(s: &str, n: usize, i: usize) -> (r: Option<(Vec<(String, String)>, usize)>)
    requires
        n == s@.len(),
    ensures
        p_props(s@, i as int) is Some <==> r is Some,
        r matches Some(p) ==> (p_props(s@, i as int) matches Some(q) && p.0.deep_view() == q.0
            && p.1 as int == q.1),
{
    if i < n && s.get_char(i) == '{' {
        if i + 1 < n && s.get_char(i + 1) == '}' {
            let empty: Vec<(String, String)> = Vec::new();
            proof {
                assert(empty.deep_view() =~= Seq::<(Seq<char>, Seq<char>)>::empty());
            }
            Some((empty, i + 2))
        } else {
            let empty: Vec<(String, String)> = Vec::new();
            proof {
                assert(empty.deep_view() =~= Seq::<(Seq<char>, Seq<char>)>::empty());
            }
            d_pairs(s, n, i + 1, empty)
        }
    } else {
        None
    }
}

/// Reads a comment object, as `p_comment` describes.
fn d_comment(s: &str, n: usize, i: usize) -> (r: Option<(Comment, usize)>)
    requires
        n == s@.len(),
    ensures
        p_comment(s@, i as int) is Some <==> r is Some,
        r matches Some(p) ==> (p_comment(s@, i as int) matches Some(q) && p.0@ == q.0 && p.1 as int
            == q.1),
{
    if !(i < n && s.get_char(i) == '{') {
        return None;
    }
    let kl_id = "\"id\":".unicode_len();
    let cid: Option<String>;
    let j1: usize;
    if match_at(s, n, i + 1, "\"id\":") {
        match d_str(s, n, i + 1 + kl_id) {
            Some((v, j)) => {
                if j < n && s.get_char(j) == ',' {
                    cid = Some(v);
                    j1 = j + 1;
                } else {
                    return None;
                }
            },
            None => {
                return None;
            },
        }
    } else {
        cid = None;
        j1 = i + 1;
    }
    if !match_at(s, n, j1, "\"props\":") {
        return None;
    }
    let kl_props = "\"props\":".unicode_len();
    match d_props(s, n, j1 + kl_props) {
        None => None,
        Some((ps, j2)) => {
            if !match_at(s, n, j2, ",\"text\":") {
                return None;
            }
            let kl_text = ",\"text\":".unicode_len();
            match d_str(s, n, j2 + kl_text) {
                None => None,
                Some((txt, j3)) => {
                    if j3 < n && s.get_char(j3) == '}' {
                        Some((Comment { id: cid, props: ps, text: txt }, j3 + 1))
                    } else {
                        None
                    }
                },
            }
        },
    }
}

/// Reads a label object, as `p_label` describes.
fn d_label(s: &str, n: usize, i: usize) -> (r: Option<(Label, usize)>)
    requires
        n == s@.len(),
    ensures
        p_label(s@, i as int) is Some <==> r is Some,
        r matches Some(p) ==> (p_label(s@, i as int) matches Some(q) && p.0@ == q.0 && p.1 as int
            == q.1),
{
    if !(i < n && s.get_char(i) == '{' && match_at(s, n, i + 1, "\"name\":")) {
        return None;
    }
    let kl_name = "\"name\":".unicode_len();
    match d_str(s, n, i + 1 + kl_name) {
        None => None,
        Some((nm, j1)) => {
            let col: Option<String>;
            let j2: usize;
            if match_at(s, n, j1, ",\"color\":") {
                let kl = ",\"color\":".unicode_len();
                match d_str(s, n, j1 + kl) {
                    Some((c, j)) => {
                        col = Some(c);
                        j2 = j;
                    },
                    None => {
                        return None;
                    },
                }
            } else {
                col = None;
                j2 = j1;
            }
            let dsc: Option<String>;
            let j3: usize;
            if match_at(s, n, j2, ",\"description\":") {
                let kl = ",\"description\":".unicode_len();
                match d_str(s, n, j2 + kl) {
                    Some((d, j)) => {
                        dsc = Some(d);
                        j3 = j;
                    },
                    None => {
                        return None;
                    },
                }
            } else {
                dsc = None;
                j3 = j2;
            }
            if j3 < n && s.get_char(j3) == '}' {
                Some((Label { name: nm, color: col, description: dsc }, j3 + 1))
            } else {
                None
            }
        },
    }
}

/// Reads comment objects up to the closing bracket, as `p_comments`
/// describes.
fn d_comments(s: &str, n: usize, i: usize, acc: Vec<Comment>) -> (r: Option<(Vec<Comment>, usize)>)
    requires
        n == s@.len(),
    ensures
        p_comments(s@, i as int, acc.deep_view()) is Some <==> r is Some,
        r matches Some(p) ==> (p_comments(s@, i as int, acc.deep_view()) matches Some(q)
            && p.0.deep_view() == q.0 && p.1 as int == q.1),
    decreases n - i,
{
    let ghost acc0 = acc.deep_view();
    match d_comment(s, n, i) {
        None => None,
        Some((c, j)) => {
            let ghost cv = c@;
            if j < n && s.get_char(j) == ',' && j + 1 > i {
                let mut acc2 = acc;
                let ghost before = acc2@;
                let ghost cg = c;
                acc2.push(c);
                proof {
                    lemma_vec_deep(&acc2);
                    lemma_seq_deep_push(before, cg);
                    assert(acc2.deep_view() =~= acc0.push(cv));
                }
                d_comments(s, n, j + 1, acc2)
            } else if j < n && s.get_char(j) == ']' {
                let mut acc2 = acc;
                let ghost before = acc2@;
                let ghost cg = c;
                acc2.push(c);
                proof {
                    lemma_vec_deep(&acc2);
                    lemma_seq_deep_push(before, cg);
                    assert(acc2.deep_view() =~= acc0.push(cv));
                }
                Some((acc2, j + 1))
            } else {
                None
            }
        },
    }
}

/// Reads label objects up to the closing bracket, as `p_labels` describes.
fn d_labels(s: &str, n: usize, i: usize, acc: Vec<Label>) -> (r: Option<(Vec<Label>, usize)>)
    requires
        n == s@.len(),
    ensures
        p_labels(s@, i as int, acc.deep_view()) is Some <==> r is Some,
        r matches Some(p) ==> (p_labels(s@, i as int, acc.deep_view()) matches Some(q)
            && p.0.deep_view() == q.0 && p.1 as int == q.1),
    decreases n - i,
{
    let ghost acc0 = acc.deep_view();
    match d_label(s, n, i) {
        None => None,
        Some((l, j)) => {
            let ghost lv = l@;
            if j < n && s.get_char(j) == ',' && j + 1 > i {
                let mut acc2 = acc;
                let ghost before = acc2@;
                let ghost lg = l;
                acc2.push(l);
                proof {
                    lemma_vec_deep(&acc2);
                    lemma_seq_deep_push(before, lg);
                    assert(acc2.deep_view() =~= acc0.push(lv));
                }
                d_labels(s, n, j + 1, acc2)
            } else if j < n && s.get_char(j) == ']' {
                let mut acc2 = acc;
                let ghost before = acc2@;
                let ghost lg = l;
                acc2.push(l);
                proof {
                    lemma_vec_deep(&acc2);
                    lemma_seq_deep_push(before, lg);
                    assert(acc2.deep_view() =~= acc0.push(lv));
                }
                Some((acc2, j + 1))
            } else {
                None
            }
        },
    }
}

/// Reads a task object, as `p_task` describes.
fn d_task(s: &str, n: usize, i: usize) -> (r: Option<(Task, usize)>)
    requires
        n == s@.len(),
    ensures
        p_task(s@, i as int) is Some <==> r is Some,
        r matches Some(p) ==> (p_task(s@, i as int) matches Some(q) && p.0@ == q.0 && p.1 as int
            == q.1),
{
    if !(i < n && s.get_char(i) == '{') {
        return None;
    }
    let kl_id = "\"id\":".unicode_len();
    let cid: Option<String>;
    let j1: usize;
    if match_at(s, n, i + 1, "\"id\":") {
        match d_str(s, n, i + 1 + kl_id) {
            Some((v, j)) => {
                if j < n && s.get_char(j) == ',' {
                    cid = Some(v);
                    j1 = j + 1;
                } else {
                    return None;
                }
            },
            None => {
                return None;
            },
        }
    } else {
        cid = None;
        j1 = i + 1;
    }
    if !match_at(s, n, j1, "\"props\":") {
        return None;
    }
    let kl_props = "\"props\":".unicode_len();
    match d_props(s, n, j1 + kl_props) {
        None => None,
        Some((ps, j2)) => {
            let copt: Option<Vec<Comment>>;
            let j3: usize;
            if match_at(s, n, j2, ",\"comments\":[") {
                let kl = ",\"comments\":[".unicode_len();
                let p = j2 + kl;
                if p < n && s.get_char(p) == ']' {
                    let empty: Vec<Comment> = Vec::new();
                    proof {
                        assert(empty.deep_view() =~= Seq::<CommentV>::empty());
                    }
                    copt = Some(empty);
                    j3 = p + 1;
                } else {
                    let empty: Vec<Comment> = Vec::new();
                    proof {
                        assert(empty.deep_view() =~= Seq::<CommentV>::empty());
                    }
                    match d_comments(s, n, p, empty) {
                        Some((l, j)) => {
                            copt = Some(l);
                            j3 = j;
                        },
                        None => {
                            return None;
                        },
                    }
                }
            } else {
                copt = None;
                j3 = j2;
            }
            let lopt: Option<Vec<Label>>;
            let j4: usize;
            if match_at(s, n, j3, ",\"labels\":[") {
                let kl = ",\"labels\":[".unicode_len();
                let p = j3 + kl;
                if p < n && s.get_char(p) == ']' {
                    let empty: Vec<Label> = Vec::new();
                    proof {
                        assert(empty.deep_view() =~= Seq::<LabelV>::empty());
                    }
                    lopt = Some(empty);
                    j4 = p + 1;
                } else {
                    let empty: Vec<Label> = Vec::new();
                    proof {
                        assert(empty.deep_view() =~= Seq::<LabelV>::empty());
                    }
                    match d_labels(s, n, p, empty) {
                        Some((l, j)) => {
                            lopt = Some(l);
                            j4 = j;
                        },
                        None => {
                            return None;
                        },
                    }
                }
            } else {
                lopt = None;
                j4 = j3;
            }
            if j4 < n && s.get_char(j4) == '}' {
                Some((Task { id: cid, props: ps, comments: copt, labels: lopt }, j4 + 1))
            } else {
                None
            }
        },
    }
}

/// The task a whole blob holds, when it is well formed.
pub fn decode_task(s: &str) -> (r: Option<Task>)
    ensures
        parse_task(s@) is Some <==> r is Some,
        r matches Some(t) ==> parse_task(s@) == Some(t@),
{
    let n = s.unicode_len();
    match d_task(s, n, 0) {
        Some((t, j)) => if j == n {
            Some(t)
        } else {
            None
        },
        None => None,
    }
}

/// The action a whole blob holds; unknown tags become `UnknownUpdate`.
pub fn decode_action(s: &str) -> (r: Option<TaskAction>)
    ensures
        r == parse_action(s@),
{
    let n = s.unicode_len();
    match d_str(s, n, 0) {
        Some((v, j)) => if j == n {
            let a: TaskAction = if str_eq(v.as_str(), "TaskCreate") {
                TaskAction::TaskCreate
            } else if str_eq(v.as_str(), "UpdateStatus") {
                TaskAction::UpdateStatus
            } else if str_eq(v.as_str(), "SetProperty") {
                TaskAction::SetProperty
            } else if str_eq(v.as_str(), "EditProperty") {
                TaskAction::EditProperty
            } else if str_eq(v.as_str(), "DeleteProperty") {
                TaskAction::DeleteProperty
            } else if str_eq(v.as_str(), "SearchReplaceProperty") {
                TaskAction::SearchReplaceProperty
            } else if str_eq(v.as_str(), "AddComment") {
                TaskAction::AddComment
            } else if str_eq(v.as_str(), "DeleteComment") {
                TaskAction::DeleteComment
            } else if str_eq(v.as_str(), "AddLabel") {
                TaskAction::AddLabel
            } else if str_eq(v.as_str(), "UpdateLabel") {
                TaskAction::UpdateLabel
            } else if str_eq(v.as_str(), "DeleteLabel") {
                TaskAction::DeleteLabel
            } else {
                TaskAction::UnknownUpdate
            };
            Some(a)
        } else {
            None
        },
        None => None,
    }
}

} // verus!
