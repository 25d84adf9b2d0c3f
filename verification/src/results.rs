//! The result/action data model: one selectable entry (`TUIResult`) and
//! the tagged description of what selecting it does (`Action`).
//!
//! Every type here is a plain value type; values cross the process
//! boundary by value through the wire codec.  Each type has a ghost
//! model (`ResultModel`, `ActionModel`, ...) that replaces every string
//! with its character sequence; the contracts of the builders and of the
//! codec speak over these models.

use vstd::prelude::*;

verus! {

/// One selectable entry a plugin hands back to the host.
#[derive(Debug, PartialEq)]
pub struct TUIResult {
    pub icon_path: Option<String>,
    pub text: String,
    pub secondary_text: Option<String>,
    pub action: Option<Action>,
    pub info: String,
}

/// What happens when the user selects an entry.
#[derive(Debug, PartialEq)]
pub enum Action {
    OpenApp(OpenApp),
    OpenFile(OpenFile),
    OpenURL(OpenURL),
    CopyText(CopyText),
    CopyImage(CopyImage),
    ShowResults(ShowResults),
    OpenSettings,
    Session(Session),
    Bookmark(Bookmark),
}

#[derive(Debug, PartialEq)]
pub struct OpenApp {
    pub path: String,
}

#[derive(Debug, PartialEq)]
pub struct OpenFile {
    pub path: String,
}

#[derive(Debug, PartialEq)]
pub struct OpenURL {
    pub url: String,
}

#[derive(Debug, PartialEq)]
pub struct CopyText {
    pub text: String,
}

#[derive(Debug, PartialEq)]
pub struct CopyImage {
    pub path: String,
}

/// Nested results, enabling multi-step drill-down.
#[derive(Debug, PartialEq)]
pub struct ShowResults {
    pub results: Vec<TUIResult>,
}

#[derive(Debug, Clone, Copy, PartialEq, Eq, Structural)]
pub enum Session {
    Shutdown,
    Restart,
    Suspend,
    Logout,
}

#[derive(Debug, PartialEq)]
pub enum Bookmark {
    Add(AddBookmark),
    Remove(RemoveBookmark),
}

#[derive(Debug, PartialEq)]
pub struct AddBookmark {
    pub name: String,
    pub url: String,
}

#[derive(Debug, Clone, Copy, PartialEq, Eq, Structural)]
pub struct RemoveBookmark {
    pub id: usize,
}

/// Ghost model of a `TUIResult`: every string as its character sequence.
pub struct ResultModel {
    pub icon_path: Option<Seq<char>>,
    pub text: Seq<char>,
    pub secondary_text: Option<Seq<char>>,
    pub action: Option<ActionModel>,
    pub info: Seq<char>,
}

/// Ghost model of an `Action`.
pub enum ActionModel {
    OpenApp { path: Seq<char> },
    OpenFile { path: Seq<char> },
    OpenURL { url: Seq<char> },
    CopyText { text: Seq<char> },
    CopyImage { path: Seq<char> },
    ShowResults { results: Seq<ResultModel> },
    OpenSettings,
    Session { session: Session },
    Bookmark { bookmark: BookmarkModel },
}

/// Ghost model of a `Bookmark`.
pub enum BookmarkModel {
    Add { name: Seq<char>, url: Seq<char> },
    Remove { id: usize },
}

pub open spec fn result_model(r: TUIResult) -> ResultModel
    decreases r,
{
    ResultModel {
        icon_path: r.icon_path.deep_view(),
        text: r.text@,
        secondary_text: r.secondary_text.deep_view(),
        action: opt_action_model(r.action),
        info: r.info@,
    }
}

pub open spec fn opt_action_model(o: Option<Action>) -> Option<ActionModel>
    decreases o,
{
    match o {
        Some(a) => Some(action_model(a)),
        None => None,
    }
}

pub open spec fn action_model(a: Action) -> ActionModel
    decreases a,
{
    match a {
        Action::OpenApp(v) => ActionModel::OpenApp { path: v.path@ },
        Action::OpenFile(v) => ActionModel::OpenFile { path: v.path@ },
        Action::OpenURL(v) => ActionModel::OpenURL { url: v.url@ },
        Action::CopyText(v) => ActionModel::CopyText { text: v.text@ },
        Action::CopyImage(v) => ActionModel::CopyImage { path: v.path@ },
        Action::ShowResults(v) => ActionModel::ShowResults { results: results_model(v.results@) },
        Action::OpenSettings => ActionModel::OpenSettings,
        Action::Session(s) => ActionModel::Session { session: s },
        Action::Bookmark(b) => ActionModel::Bookmark { bookmark: bookmark_model(b) },
    }
}

pub open spec fn results_model(s: Seq<TUIResult>) -> Seq<ResultModel>
    decreases s,
{
    if s.len() == 0 {
        Seq::empty()
    } else {
        seq![result_model(s[0])] + results_model(s.subrange(1, s.len() as int))
    }
}

pub open spec fn bookmark_model(b: Bookmark) -> BookmarkModel {
    match b {
        Bookmark::Add(v) => BookmarkModel::Add { name: v.name@, url: v.url@ },
        Bookmark::Remove(v) => BookmarkModel::Remove { id: v.id },
    }
}

/// The model of a sequence of results is the sequence of their models.
pub proof fn lemma_results_model(s: Seq<TUIResult>)
    ensures
        results_model(s).len() == s.len(),
        forall|i: int| 0 <= i < s.len() ==> results_model(s)[i] == result_model(s[i]),
    decreases s,
{
    if s.len() != 0 {
        lemma_results_model(s.subrange(1, s.len() as int));
    }
}

fn clone_opt_string(o: &Option<String>) -> (c: Option<String>)
    ensures
        c.deep_view() == o.deep_view(),
{
    match o {
        Some(s) => Some(s.clone()),
        None => None,
    }
}

fn clone_result(r: &TUIResult) -> (c: TUIResult)
    ensures
        result_model(c) == result_model(*r),
    decreases *r,
{
    TUIResult {
        icon_path: clone_opt_string(&r.icon_path),
        text: r.text.clone(),
        secondary_text: clone_opt_string(&r.secondary_text),
        action: match &r.action {
            Some(a) => Some(clone_action(a)),
            None => None,
        },
        info: r.info.clone(),
    }
}

fn clone_action(a: &Action) -> (c: Action)
    ensures
        action_model(c) == action_model(*a),
    decreases *a,
{
    match a {
        Action::OpenApp(v) => Action::OpenApp(OpenApp { path: v.path.clone() }),
        Action::OpenFile(v) => Action::OpenFile(OpenFile { path: v.path.clone() }),
        Action::OpenURL(v) => Action::OpenURL(OpenURL { url: v.url.clone() }),
        Action::CopyText(v) => Action::CopyText(CopyText { text: v.text.clone() }),
        Action::CopyImage(v) => Action::CopyImage(CopyImage { path: v.path.clone() }),
        Action::ShowResults(v) => {
            let n = v.results.len();
            let mut out: Vec<TUIResult> = Vec::new();
            let mut i: usize = 0;
            while i < n
                invariant
                    *a == Action::ShowResults(*v),
                    n == v.results@.len(),
                    i <= n,
                    out@.len() == i,
                    forall|j: int|
                        0 <= j < i ==> result_model(out@[j]) == result_model(v.results@[j]),
                decreases n - i,
            {
                proof {
                    assert(decreases_to!(*a => v.results@[i as int])) by {
                        assert(*a == Action::ShowResults(*v));
                        assert(a->ShowResults_0 == *v);
                        assert(decreases_to!(*a => a->ShowResults_0));
                        assert(decreases_to!(*a => *v));
                        assert(decreases_to!(*v => v.results));
                        assert(decreases_to!(v.results => v.results@));
                        assert(decreases_to!(v.results@ => v.results@[i as int]));
                    }
                }
                out.push(clone_result(&v.results[i]));
                i += 1;
            }
            proof {
                lemma_results_model(out@);
                lemma_results_model(v.results@);
                assert(results_model(out@) =~= results_model(v.results@));
            }
            Action::ShowResults(ShowResults { results: out })
        },
        Action::OpenSettings => Action::OpenSettings,
        Action::Session(s) => Action::Session(*s),
        Action::Bookmark(b) => Action::Bookmark(clone_bookmark(b)),
    }
}

fn clone_bookmark(b: &Bookmark) -> (c: Bookmark)
    ensures
        bookmark_model(c) == bookmark_model(*b),
{
    match b {
        Bookmark::Add(v) => Bookmark::Add(
            AddBookmark { name: v.name.clone(), url: v.url.clone() },
        ),
        Bookmark::Remove(v) => Bookmark::Remove(*v),
    }
}

impl Clone for TUIResult {
    /// The clone carries the same model as the original.
    fn clone(&self) -> (c: Self)
        ensures
            result_model(c) == result_model(*self),
    {
        clone_result(self)
    }
}

impl Clone for Action {
    /// The clone carries the same model as the original.
    fn clone(&self) -> (c: Self)
        ensures
            action_model(c) == action_model(*self),
    {
        clone_action(self)
    }
}

impl Clone for Bookmark {
    /// The clone carries the same model as the original.
    fn clone(&self) -> (c: Self)
        ensures
            bookmark_model(c) == bookmark_model(*self),
    {
        clone_bookmark(self)
    }
}

impl TUIResult {
    /// A fresh entry with the given label and correlation payload and
    /// nothing else set.
    pub fn new(text: &str, info: &str) -> (r: Self)
        ensures
            r.icon_path is None,
            r.text@ == text@,
            r.secondary_text is None,
            r.action is None,
            r.info@ == info@,
    {
        TUIResult {
            text: String::from_str(text),
            secondary_text: None,
            action: None,
            icon_path: None,
            info: String::from_str(info),
        }
    }

    /// Sets the icon path and hands back an independent copy of the
    /// updated entry.
    pub fn set_icon_path(&mut self, path: &str) -> (r: Self)
        ensures
            final(self).icon_path.deep_view() == Some(path@),
            final(self).text == old(self).text,
            final(self).secondary_text == old(self).secondary_text,
            final(self).action == old(self).action,
            final(self).info == old(self).info,
            result_model(r) == result_model(*final(self)),
    {
        self.icon_path = Some(String::from_str(path));
        self.clone()
    }

    /// Sets the secondary label and hands back an independent copy of
    /// the updated entry.
    pub fn set_secondary_text(&mut self, text: &str) -> (r: Self)
        ensures
            final(self).secondary_text.deep_view() == Some(text@),
            final(self).text == old(self).text,
            final(self).icon_path == old(self).icon_path,
            final(self).action == old(self).action,
            final(self).info == old(self).info,
            result_model(r) == result_model(*final(self)),
    {
        self.secondary_text = Some(String::from_str(text));
        self.clone()
    }

    /// Sets the action and hands back an independent copy of the
    /// updated entry.
    pub fn set_action(&mut self, action: Action) -> (r: Self)
        ensures
            final(self).action matches Some(a) && action_model(a) == action_model(action),
            final(self).text == old(self).text,
            final(self).icon_path == old(self).icon_path,
            final(self).secondary_text == old(self).secondary_text,
            final(self).info == old(self).info,
            result_model(r) == result_model(*final(self)),
    {
        self.action = Some(action);
        self.clone()
    }
}

impl OpenApp {
    pub fn new(path: &str) -> (r: Self)
        ensures
            r.path@ == path@,
    {
        OpenApp { path: String::from_str(path) }
    }
}

impl OpenFile {
    pub fn new(path: &str) -> (r: Self)
        ensures
            r.path@ == path@,
    {
        OpenFile { path: String::from_str(path) }
    }
}

impl OpenURL {
    pub fn new(url: &str) -> (r: Self)
        ensures
            r.url@ == url@,
    {
        OpenURL { url: String::from_str(url) }
    }
}

impl CopyText {
    pub fn new(text: &str) -> (r: Self)
        ensures
            r.text@ == text@,
    {
        CopyText { text: String::from_str(text) }
    }
}

impl CopyImage {
    pub fn new(path: &str) -> (r: Self)
        ensures
            r.path@ == path@,
    {
        CopyImage { path: String::from_str(path) }
    }
}

impl ShowResults {
    pub fn new(results: Vec<TUIResult>) -> (r: Self)
        ensures
            r.results == results,
    {
        ShowResults { results }
    }
}

} // verus!
