//! Query parsing: splitting raw input text into an optional leading
//! keyword and the remaining query text.

use vstd::prelude::*;

verus! {

/// The ASCII blanks that are trimmed from the front of the query text
/// after the keyword has been stripped.
pub open spec fn is_blank(c: char) -> bool {
    c == ' ' || c == '\t' || c == '\n' || c == '\r'
}

/// Index of the first ASCII space in `s`, or `s.len()` when `s` holds none.
pub open spec fn first_space_index(s: Seq<char>) -> int
    decreases s.len(),
{
    if s.len() == 0 {
        0
    } else if s[0] == ' ' {
        0
    } else {
        1 + first_space_index(s.skip(1))
    }
}

/// Number of leading blank characters of `s`.
pub open spec fn leading_blanks(s: Seq<char>) -> int
    decreases s.len(),
{
    if s.len() == 0 {
        0
    } else if is_blank(s[0]) {
        1 + leading_blanks(s.skip(1))
    } else {
        0
    }
}

/// `s` without its leading blanks.
pub open spec fn trim_front(s: Seq<char>) -> Seq<char> {
    s.subrange(leading_blanks(s), s.len() as int)
}

/// The keyword of an input: the text before the first ASCII space,
/// present exactly when the input contains a space.
pub open spec fn spec_keyword(s: Seq<char>) -> Option<Seq<char>> {
    let i = first_space_index(s);
    if i < s.len() {
        Some(s.take(i))
    } else {
        None
    }
}

/// The query of an input: what follows the keyword, with leading blanks
/// removed; present exactly when a keyword is.
pub open spec fn spec_query(s: Seq<char>) -> Option<Seq<char>> {
    let i = first_space_index(s);
    if i < s.len() {
        Some(trim_front(s.skip(i)))
    } else {
        None
    }
}

pub proof fn lemma_first_space_index_bounds(s: Seq<char>)
    ensures
        0 <= first_space_index(s) <= s.len(),
    decreases s.len(),
{
    if s.len() != 0 && s[0] != ' ' {
        lemma_first_space_index_bounds(s.skip(1));
    }
}

/// The first-space index is the unique position with no space before it
/// and a space (or the end of the text) at it.
proof fn lemma_first_space_index_is(s: Seq<char>, i: int)
    requires
        0 <= i <= s.len(),
        forall|j: int| 0 <= j < i ==> s[j] != ' ',
        i == s.len() || s[i] == ' ',
    ensures
        first_space_index(s) == i,
    decreases i,
{
    if i == 0 {
    } else {
        assert(s[0] != ' ');
        let s1 = s.skip(1);
        assert(forall|j: int| 0 <= j < i - 1 ==> s1[j] == s[j + 1] && s[j + 1] != ' ');
        assert(i - 1 == s1.len() || s1[i - 1] == s[i]);
        lemma_first_space_index_is(s1, i - 1);
    }
}

/// The count of leading blanks is the unique position with only blanks
/// before it and a non-blank (or the end of the text) at it.
proof fn lemma_leading_blanks_is(s: Seq<char>, i: int)
    requires
        0 <= i <= s.len(),
        forall|j: int| 0 <= j < i ==> is_blank(s[j]),
        i == s.len() || !is_blank(s[i]),
    ensures
        leading_blanks(s) == i,
    decreases i,
{
    if i == 0 {
    } else {
        assert(is_blank(s[0]));
        let s1 = s.skip(1);
        assert(forall|j: int| 0 <= j < i - 1 ==> s1[j] == s[j + 1] && is_blank(s[j + 1]));
        assert(i - 1 == s1.len() || s1[i - 1] == s[i]);
        lemma_leading_blanks_is(s1, i - 1);
    }
}

/// Error for query parsing.  The derivation of the keyword from the input
/// guarantees parsing succeeds, so no constructor of `Query` ever returns
/// this value; it is kept so that callers see the fallible shape of the
/// operation.
#[derive(Debug, Clone, Copy, PartialEq, Eq)]
pub struct ParseError;

/// One parsed input line: the original text, the optional leading keyword
/// (the text before the first space), and the optional remaining query.
#[derive(Debug)]
pub struct Query {
    pub full_text: String,
    pub keyword: Option<String>,
    pub query: Option<String>,
}

impl Query {
    /// The keyword and query fields hold exactly what parsing
    /// `full_text` yields.
    pub open spec fn wf(&self) -> bool {
        &&& self.keyword.deep_view() == spec_keyword(self.full_text@)
        &&& self.query.deep_view() == spec_query(self.full_text@)
    }

    /// The type's invariant: a query is only ever present together with
    /// the keyword it was split off from.
    pub proof fn lemma_no_keyword_no_query(&self)
        requires
            self.wf(),
        ensures
            self.keyword is None ==> self.query is None,
    {
    }

    /// Parse an input line.  Never fails: when the text holds no space,
    /// both the keyword and the query are absent.
    pub fn new(text: &str) -> (r: Result<Query, ParseError>)
        ensures
            r is Ok,
            r matches Ok(q) ==> q.full_text@ == text@ && q.wf(),
    {
        let n = text.unicode_len();
        let i = find_first_space(text);
        proof {
            lemma_first_space_index_bounds(text@);
        }
        if i < n {
            let kw = text.substring_char(0, i);
            let rest = text.substring_char(i, n);
            let m = rest.unicode_len();
            let k = count_leading_blanks(rest);
            let q = rest.substring_char(k, m);
            let parsed = Query {
                full_text: text.to_owned(),
                keyword: Some(kw.to_owned()),
                query: Some(q.to_owned()),
            };
            proof {
                assert(rest@ == text@.skip(i as int));
                assert(q@ == trim_front(text@.skip(i as int)));
                assert(kw@ == text@.take(i as int));
            }
            Ok(parsed)
        } else {
            Ok(Query { full_text: text.to_owned(), keyword: None, query: None })
        }
    }

    /// What `get_query` returns: the parsed query when a keyword was
    /// present, the whole input otherwise.
    pub open spec fn spec_get_query(&self) -> Seq<char> {
        match self.query {
            Some(q) => q@,
            None => self.full_text@,
        }
    }

    /// The query text when one was split off, the whole input otherwise.
    pub fn get_query(&self) -> (r: String)
        ensures
            r@ == self.spec_get_query(),
    {
        match &self.query {
            Some(q) => q.clone(),
            None => self.full_text.clone(),
        }
    }
}

/// Walks the text to the first ASCII space, or to the end.
fn find_first_space(text: &str) -> (i: usize)
    ensures
        i as int == first_space_index(text@),
        i <= text@.len(),
{
    let n = text.unicode_len();
    let mut i: usize = 0;
    loop
        invariant
            n == text@.len(),
            i <= n,
            forall|j: int| 0 <= j < i ==> text@[j] != ' ',
        decreases n - i,
    {
        if i == n {
            proof {
                lemma_first_space_index_is(text@, i as int);
            }
            return i;
        }
        let c = text.get_char(i);
        if c == ' ' {
            proof {
                lemma_first_space_index_is(text@, i as int);
            }
            return i;
        }
        i += 1;
    }
}

/// Counts the blanks at the front of the text.
fn count_leading_blanks(text: &str) -> (k: usize)
    ensures
        k as int == leading_blanks(text@),
        k <= text@.len(),
{
    let n = text.unicode_len();
    let mut k: usize = 0;
    loop
        invariant
            n == text@.len(),
            k <= n,
            forall|j: int| 0 <= j < k ==> is_blank(text@[j]),
        decreases n - k,
    {
        if k == n {
            proof {
                lemma_leading_blanks_is(text@, k as int);
            }
            return k;
        }
        let c = text.get_char(k);
        if !(c == ' ' || c == '\t' || c == '\n' || c == '\r') {
            proof {
                lemma_leading_blanks_is(text@, k as int);
            }
            return k;
        }
        k += 1;
    }
}

} // verus!
