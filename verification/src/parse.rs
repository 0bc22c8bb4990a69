//! The line parser: turns one line of an environment file into an optional
//! `key=value` pair. A line yields a pair exactly when it starts with an
//! alphabetic character and contains `=`; one layer of quote characters is
//! stripped from the edges of the value.

use vstd::prelude::*;
use vstd::string::StrSliceExecFns;

verus! {

/// What `char::is_alphabetic` returns for a character.
pub uninterp spec fn is_alpha(c: char) -> bool;

/// Relies on `char::is_alphabetic` of std: whether the character has the
/// Unicode `Alphabetic` property, a function of the character alone.
#[verifier::external_body]
fn char_is_alphabetic(c: char) -> (r: bool)
    ensures
        r == is_alpha(c),
{
    c.is_alphabetic()
}

/// A character that counts as a quote around a value.
pub open spec fn is_quote(c: char) -> bool {
    c == '\'' || c == '"'
}

fn is_quote_char(c: char) -> (r: bool)
    ensures
        r == is_quote(c),
{
    c == '\'' || c == '"'
}

/// The position of the first `=` in `s`, or `s.len()` if there is none.
pub open spec fn eq_index(s: Seq<char>) -> int
    decreases s.len(),
{
    if s.len() == 0 {
        0
    } else if s[0] == '=' {
        0
    } else {
        1 + eq_index(s.drop_first())
    }
}

proof fn lemma_eq_index_at(s: Seq<char>, i: int)
    requires
        0 <= i <= s.len(),
        forall|j: int| 0 <= j < i ==> s[j] != '=',
        i == s.len() || s[i] == '=',
    ensures
        eq_index(s) == i,
    decreases s.len(),
{
    if s.len() == 0 {
    } else if i == 0 {
    } else {
        assert(forall|j: int| 0 <= j < i - 1 ==> s.drop_first()[j] == s[j + 1]);
        lemma_eq_index_at(s.drop_first(), i - 1);
    }
}

/// One layer of quote characters stripped from the edges of a value:
/// at most one leading and one trailing quote character are removed.
pub open spec fn strip_quotes(v: Seq<char>) -> Seq<char> {
    let w = if v.len() > 0 && is_quote(v[0]) {
        v.subrange(1, v.len() as int)
    } else {
        v
    };
    if w.len() > 0 && is_quote(w[w.len() - 1]) {
        w.subrange(0, w.len() - 1)
    } else {
        w
    }
}

/// What one line of an environment file denotes: `None` for a line that
/// does not start with an alphabetic character or has no `=`; otherwise the
/// key before the first `=` and the value after it, quote edges stripped.
pub open spec fn parse_line(s: Seq<char>) -> Option<(Seq<char>, Seq<char>)> {
    if s.len() == 0 || !is_alpha(s[0]) {
        None
    } else if eq_index(s) == s.len() {
        None
    } else {
        Some(
            (
                s.subrange(0, eq_index(s)),
                strip_quotes(s.subrange(eq_index(s) + 1, s.len() as int)),
            ),
        )
    }
}

/// A line is a candidate pair only when its first character is alphabetic.
pub fn is_valid_ident(s: &str) -> (r: bool)
    ensures
        r == (s@.len() > 0 && is_alpha(s@[0])),
{
    if s.is_empty() {
        false
    } else {
        char_is_alphabetic(s.get_char(0))
    }
}

fn find_eq(s: &str) -> (r: usize)
    ensures
        r as int == eq_index(s@),
        r <= s@.len(),
{
    let n = s.unicode_len();
    let mut i: usize = 0;
    while i < n
        invariant
            i <= n,
            n == s@.len(),
            forall|j: int| 0 <= j < i ==> s@[j] != '=',
        decreases n - i,
    {
        let c = s.get_char(i);
        if c == '=' {
            proof {
                lemma_eq_index_at(s@, i as int);
            }
            return i;
        }
        i += 1;
    }
    proof {
        lemma_eq_index_at(s@, n as int);
    }
    n
}

/// Parse one line into its optional key/value pair, exactly as `parse_line`
/// describes: a line not starting with an alphabetic character, or without
/// `=`, yields no pair; otherwise the split is at the first `=`, with one
/// layer of quote characters stripped from the edges of the value.
pub fn split_line(s: String) -> (r: Option<(String, String)>)
    ensures
        match parse_line(s@) {
            Some(kv) => r matches Some(p) && p.0@ == kv.0 && p.1@ == kv.1,
            None => r is None,
        },
        s@.len() == 0 ==> r is None,
        s@.len() > 0 && !is_alpha(s@[0]) ==> r is None,
{
    let ss = s.as_str();
    if !is_valid_ident(ss) {
        return None;
    }
    let n = ss.unicode_len();
    let i = find_eq(ss);
    if i == n {
        return None;
    }
    let key = ss.substring_char(0, i).to_owned();
    let ghost raw: Seq<char> = s@.subrange(i + 1, n as int);
    let mut start: usize = i + 1;
    let mut end: usize = n;
    if start < end && is_quote_char(ss.get_char(start)) {
        start = start + 1;
    }
    proof {
        assert(s@.subrange(start as int, end as int) =~= (if raw.len() > 0 && is_quote(
            raw[0],
        ) {
            raw.subrange(1, raw.len() as int)
        } else {
            raw
        }));
    }
    let ghost w: Seq<char> = s@.subrange(start as int, end as int);
    if start < end && is_quote_char(ss.get_char(end - 1)) {
        end = end - 1;
    }
    proof {
        assert(s@.subrange(start as int, end as int) =~= (if w.len() > 0 && is_quote(
            w[w.len() - 1],
        ) {
            w.subrange(0, w.len() - 1)
        } else {
            w
        }));
        assert(s@.subrange(start as int, end as int) =~= strip_quotes(raw));
    }
    let val = ss.substring_char(start, end).to_owned();
    Some((key, val))
}

/// What `char::is_whitespace` returns for a character.
pub uninterp spec fn is_white(c: char) -> bool;

/// Relies on `char::is_whitespace` of std: whether the character has the
/// Unicode `White_Space` property, a function of the character alone.
#[verifier::external_body]
fn char_is_whitespace(c: char) -> (r: bool)
    ensures
        r == is_white(c),
{
    c.is_whitespace()
}

/// Emit a pending token: nothing if it is empty, else the one token.
pub open spec fn emit(cur: Seq<char>) -> Seq<Seq<char>> {
    if cur.len() == 0 {
        Seq::empty()
    } else {
        seq![cur]
    }
}

/// The tokens of `s` with `cur` as the partial token read so far.
pub open spec fn toks(s: Seq<char>, cur: Seq<char>) -> Seq<Seq<char>>
    decreases s.len(),
{
    if s.len() == 0 {
        emit(cur)
    } else if is_white(s[0]) {
        emit(cur) + toks(s.drop_first(), Seq::empty())
    } else {
        toks(s.drop_first(), cur.push(s[0]))
    }
}

/// The whitespace-separated tokens of a command string, in order, with no
/// quoting rules and no variable expansion.
pub open spec fn tokens_of(s: Seq<char>) -> Seq<Seq<char>> {
    toks(s, Seq::empty())
}

proof fn lemma_toks_run(s: Seq<char>, cur: Seq<char>, k: int)
    requires
        0 <= k <= s.len(),
        forall|j: int| 0 <= j < k ==> !is_white(s[j]),
        k == s.len() || is_white(s[k]),
    ensures
        toks(s, cur) =~= emit(cur + s.take(k)) + toks(s.skip(k), Seq::empty()),
    decreases k,
{
    if k == 0 {
        assert(cur + s.take(0) =~= cur);
        if s.len() == 0 {
            assert(toks(s.skip(0), Seq::empty()) =~= Seq::<Seq<char>>::empty());
        } else {
            assert(s.skip(0) =~= s);
            assert(toks(s, Seq::empty()) =~= Seq::<Seq<char>>::empty() + toks(s, Seq::empty()));
        }
    } else {
        assert(forall|j: int| 0 <= j < k - 1 ==> s.drop_first()[j] == s[j + 1]);
        lemma_toks_run(s.drop_first(), cur.push(s[0]), k - 1);
        assert(cur.push(s[0]) + s.drop_first().take(k - 1) =~= cur + s.take(k));
        assert(s.drop_first().skip(k - 1) =~= s.skip(k));
    }
}

/// Split a command string into its whitespace-separated tokens, exactly the
/// sequence `tokens_of` describes.
pub fn tokenize(s: &str) -> (r: Vec<String>)
    ensures
        r.deep_view() == tokens_of(s@),
{
    let n = s.unicode_len();
    let mut r: Vec<String> = Vec::new();
    let mut i: usize = 0;
    proof {
        assert(s@.skip(0) =~= s@);
        assert(r.deep_view() =~= Seq::<Seq<char>>::empty());
        assert(Seq::<Seq<char>>::empty() + tokens_of(s@) =~= tokens_of(s@));
    }
    while i < n
        invariant
            i <= n,
            n == s@.len(),
            r.deep_view() + toks(s@.skip(i as int), Seq::empty()) =~= tokens_of(s@),
        decreases n - i,
    {
        let c = s.get_char(i);
        if char_is_whitespace(c) {
            proof {
                assert(s@.skip(i as int).drop_first() =~= s@.skip(i + 1));
                assert(toks(s@.skip(i as int), Seq::empty()) =~= toks(s@.skip(i + 1), Seq::empty()));
            }
            i = i + 1;
        } else {
            let start = i;
            i = i + 1;
            while i < n && !char_is_whitespace(s.get_char(i))
                invariant
                    start < i <= n,
                    n == s@.len(),
                    forall|j: int| start <= j < i ==> !is_white(s@[j]),
                decreases n - i,
            {
                i = i + 1;
            }
            let tok = s.substring_char(start, i).to_owned();
            let ghost old_r = r.deep_view();
            r.push(tok);
            proof {
                let rest = s@.skip(start as int);
                let k = i - start;
                assert(forall|j: int| 0 <= j < k ==> rest[j] == s@[start + j]);
                lemma_toks_run(rest, Seq::empty(), k as int);
                assert(Seq::<char>::empty() + rest.take(k as int) =~= s@.subrange(
                    start as int,
                    i as int,
                ));
                assert(rest.skip(k as int) =~= s@.skip(i as int));
                assert(emit(s@.subrange(start as int, i as int)) =~= seq![
                    s@.subrange(start as int, i as int),
                ]);
                assert(r.deep_view() =~= old_r.push(s@.subrange(start as int, i as int)));
                assert(r.deep_view() + toks(s@.skip(i as int), Seq::empty()) =~= tokens_of(s@));
            }
        }
    }
    proof {
        assert(s@.skip(n as int) =~= Seq::<char>::empty());
        assert(r.deep_view() + toks(Seq::<char>::empty(), Seq::empty()) =~= r.deep_view());
    }
    r
}

/// What `str::to_lowercase` returns: a function of the characters alone.
pub uninterp spec fn lower_of(s: Seq<char>) -> Seq<char>;

/// Relies on `str::to_lowercase` of std: the lowercased text, a function of
/// the characters alone.
#[verifier::external_body]
fn to_lower(s: &str) -> (r: String)
    ensures
        r@ == lower_of(s@),
{
    s.to_lowercase()
}

/// The file name an environment name resolves to: `.env` for the default
/// environment, `.<lowercased name>.env` for a named one.
pub fn get_envf_path(name: Option<String>) -> (r: String)
    ensures
        match name {
            None => r@ == ".env"@,
            Some(n) => r@ == "."@ + lower_of(n@) + ".env"@,
        },
{
    match name {
        None => ".env".to_owned(),
        Some(n) => {
            let mut r = ".".to_owned();
            let low = to_lower(n.as_str());
            r.append(low.as_str());
            r.append(".env");
            proof {
                assert(r@ =~= "."@ + lower_of(n@) + ".env"@);
            }
            r
        },
    }
}

} // verus!
