//! Character-level scanning primitives shared by the tokenizer and the
//! generator: first occurrence of a character, whitespace tokenization,
//! trimming, and joining.  Each executable function is proved against a
//! spec-level counterpart on `Seq<char>`.

use vstd::prelude::*;

verus! {

/// Whitespace for the purposes of this trace format: the characters with
/// the Unicode `White_Space` property, the set `char::is_whitespace`
/// accepts.
pub open spec fn is_wspace(c: char) -> bool {
    c == '\t' || c == '\n' || c == '\u{0B}' || c == '\u{0C}' || c == '\r' || c == ' '
        || c == '\u{85}' || c == '\u{A0}' || c == '\u{1680}' || c == '\u{2000}'
        || c == '\u{2001}' || c == '\u{2002}' || c == '\u{2003}' || c == '\u{2004}'
        || c == '\u{2005}' || c == '\u{2006}' || c == '\u{2007}' || c == '\u{2008}'
        || c == '\u{2009}' || c == '\u{200A}' || c == '\u{2028}' || c == '\u{2029}'
        || c == '\u{202F}' || c == '\u{205F}' || c == '\u{3000}'
}

/// Index of the first occurrence of `c` in `s`, if any.
pub open spec fn spec_find(s: Seq<char>, c: char) -> Option<int>
    decreases s.len(),
{
    if s.len() == 0 {
        None
    } else if s[0] == c {
        Some(0)
    } else {
        match spec_find(s.drop_first(), c) {
            None => None,
            Some(i) => Some(1 + i),
        }
    }
}

pub proof fn lemma_spec_find_bounds(s: Seq<char>, c: char)
    ensures
        match spec_find(s, c) {
            Some(i) => 0 <= i < s.len() && s[i] == c,
            None => true,
        },
    decreases s.len(),
{
    if s.len() > 0 && s[0] != c {
        lemma_spec_find_bounds(s.drop_first(), c);
    }
}

/// First index of `c`, or `None` if `c` does not occur.
pub fn find_char(s: &str, c: char) -> (r: Option<usize>)
    ensures
        match r {
            Some(i) => spec_find(s@, c) == Some(i as int),
            None => spec_find(s@, c) == None::<int>,
        },
    decreases s@.len(),
{
    let n = s.unicode_len();
    if n == 0 {
        None
    } else if s.get_char(0) == c {
        Some(0)
    } else {
        let rest = s.substring_char(1, n);
        assert(rest@ == s@.drop_first());
        match find_char(rest, c) {
            None => None,
            Some(i) => {
                proof {
                    lemma_spec_find_bounds(rest@, c);
                }
                Some(i + 1)
            },
        }
    }
}

/// `s` with every leading `c` removed.
pub open spec fn strip_lead(s: Seq<char>, c: char) -> Seq<char>
    decreases s.len(),
{
    if s.len() > 0 && s[0] == c {
        strip_lead(s.drop_first(), c)
    } else {
        s
    }
}

/// `s` with every trailing `c` removed.
pub open spec fn strip_trail(s: Seq<char>, c: char) -> Seq<char>
    decreases s.len(),
{
    if s.len() > 0 && s.last() == c {
        strip_trail(s.drop_last(), c)
    } else {
        s
    }
}

/// `s` with every leading and trailing `c` removed.
pub open spec fn trim_char(s: Seq<char>, c: char) -> Seq<char> {
    strip_trail(strip_lead(s, c), c)
}

/// `s` with every leading whitespace character removed.
pub open spec fn strip_lead_ws(s: Seq<char>) -> Seq<char>
    decreases s.len(),
{
    if s.len() > 0 && is_wspace(s[0]) {
        strip_lead_ws(s.drop_first())
    } else {
        s
    }
}

/// `s` with every trailing whitespace character removed.
pub open spec fn strip_trail_ws(s: Seq<char>) -> Seq<char>
    decreases s.len(),
{
    if s.len() > 0 && is_wspace(s.last()) {
        strip_trail_ws(s.drop_last())
    } else {
        s
    }
}

/// `s` with leading and trailing whitespace removed.
pub open spec fn trim_ws(s: Seq<char>) -> Seq<char> {
    strip_trail_ws(strip_lead_ws(s))
}

fn is_wspace_exec(c: char) -> (b: bool)
    ensures
        b == is_wspace(c),
{
    c == '\t' || c == '\n' || c == '\u{0B}' || c == '\u{0C}' || c == '\r' || c == ' '
        || c == '\u{85}' || c == '\u{A0}' || c == '\u{1680}' || c == '\u{2000}'
        || c == '\u{2001}' || c == '\u{2002}' || c == '\u{2003}' || c == '\u{2004}'
        || c == '\u{2005}' || c == '\u{2006}' || c == '\u{2007}' || c == '\u{2008}'
        || c == '\u{2009}' || c == '\u{200A}' || c == '\u{2028}' || c == '\u{2029}'
        || c == '\u{202F}' || c == '\u{205F}' || c == '\u{3000}'
}

fn strip_lead_exec<'a>(s: &'a str, c: char) -> (r: &'a str)
    ensures
        r@ == strip_lead(s@, c),
    decreases s@.len(),
{
    let n = s.unicode_len();
    if n > 0 && s.get_char(0) == c {
        let rest = s.substring_char(1, n);
        assert(rest@ == s@.drop_first());
        strip_lead_exec(rest, c)
    } else {
        s
    }
}

fn strip_trail_exec<'a>(s: &'a str, c: char) -> (r: &'a str)
    ensures
        r@ == strip_trail(s@, c),
    decreases s@.len(),
{
    let n = s.unicode_len();
    if n > 0 && s.get_char(n - 1) == c {
        let rest = s.substring_char(0, n - 1);
        assert(rest@ == s@.drop_last());
        strip_trail_exec(rest, c)
    } else {
        s
    }
}

/// Removes every leading and trailing `c` from `s`.
pub fn trim_char_exec<'a>(s: &'a str, c: char) -> (r: &'a str)
    ensures
        r@ == trim_char(s@, c),
{
    strip_trail_exec(strip_lead_exec(s, c), c)
}

fn strip_lead_ws_exec<'a>(s: &'a str) -> (r: &'a str)
    ensures
        r@ == strip_lead_ws(s@),
    decreases s@.len(),
{
    let n = s.unicode_len();
    if n > 0 && is_wspace_exec(s.get_char(0)) {
        let rest = s.substring_char(1, n);
        assert(rest@ == s@.drop_first());
        strip_lead_ws_exec(rest)
    } else {
        s
    }
}

fn strip_trail_ws_exec<'a>(s: &'a str) -> (r: &'a str)
    ensures
        r@ == strip_trail_ws(s@),
    decreases s@.len(),
{
    let n = s.unicode_len();
    if n > 0 && is_wspace_exec(s.get_char(n - 1)) {
        let rest = s.substring_char(0, n - 1);
        assert(rest@ == s@.drop_last());
        strip_trail_ws_exec(rest)
    } else {
        s
    }
}

/// Removes leading and trailing whitespace from `s`.
pub fn trim_ws_exec<'a>(s: &'a str) -> (r: &'a str)
    ensures
        r@ == trim_ws(s@),
{
    strip_trail_ws_exec(strip_lead_ws_exec(s))
}

/// Longest whitespace-free prefix of `s`.
pub open spec fn take_until_ws(s: Seq<char>) -> Seq<char>
    decreases s.len(),
{
    if s.len() > 0 && !is_wspace(s[0]) {
        seq![s[0]] + take_until_ws(s.drop_first())
    } else {
        Seq::empty()
    }
}

pub proof fn lemma_take_until_ws(s: Seq<char>)
    ensures
        take_until_ws(s).len() <= s.len(),
        take_until_ws(s) == s.take(take_until_ws(s).len() as int),
        forall|j: int| 0 <= j < take_until_ws(s).len() ==> !is_wspace(s[j]),
        take_until_ws(s).len() < s.len() ==> is_wspace(s[take_until_ws(s).len() as int]),
    decreases s.len(),
{
    if s.len() > 0 && !is_wspace(s[0]) {
        lemma_take_until_ws(s.drop_first());
        let t = take_until_ws(s);
        let tr = take_until_ws(s.drop_first());
        assert(t == seq![s[0]] + tr);
        assert(t == s.take(t.len() as int)) by {
            assert(tr == s.drop_first().take(tr.len() as int));
            assert(t =~= s.take(t.len() as int));
        }
        assert forall|j: int| 0 <= j < t.len() implies !is_wspace(s[j]) by {
            if j > 0 {
                assert(!is_wspace(s.drop_first()[j - 1]));
            }
        }
        if t.len() < s.len() {
            assert(is_wspace(s.drop_first()[tr.len() as int]));
        }
    }
}

/// The whitespace-separated tokens of `s`, in order, each nonempty.
pub open spec fn tokens(s: Seq<char>) -> Seq<Seq<char>>
    decreases s.len(),
    via tokens_decreases
{
    if s.len() == 0 {
        Seq::empty()
    } else if is_wspace(s[0]) {
        tokens(s.drop_first())
    } else {
        seq![take_until_ws(s)] + tokens(s.skip(take_until_ws(s).len() as int))
    }
}

#[via_fn]
proof fn tokens_decreases(s: Seq<char>) {
    if s.len() > 0 && !is_wspace(s[0]) {
        lemma_take_until_ws(s);
        assert(take_until_ws(s).len() >= 1);
    }
}

/// Length of the leading whitespace-free run of `s`.
fn tok_len(s: &str) -> (k: usize)
    ensures
        k as int == take_until_ws(s@).len(),
    decreases s@.len(),
{
    let n = s.unicode_len();
    if n > 0 && !is_wspace_exec(s.get_char(0)) {
        let rest = s.substring_char(1, n);
        assert(rest@ == s@.drop_first());
        proof {
            lemma_take_until_ws(rest@);
        }
        let k = tok_len(rest);
        k + 1
    } else {
        0
    }
}

/// The views of a sequence of strings.
pub open spec fn str_views(ss: Seq<String>) -> Seq<Seq<char>> {
    ss.map_values(|t: String| t@)
}

/// Splits `s` into its whitespace-separated tokens.
pub fn ws_tokens(s: &str) -> (r: Vec<String>)
    ensures
        str_views(r@) == tokens(s@),
{
    let mut out: Vec<String> = Vec::new();
    let mut rest: &str = s;
    loop
        invariant
            tokens(s@) == str_views(out@) + tokens(rest@),
        decreases rest@.len(),
    {
        let n = rest.unicode_len();
        if n == 0 {
            break;
        }
        if is_wspace_exec(rest.get_char(0)) {
            let next = rest.substring_char(1, n);
            assert(next@ == rest@.drop_first());
            rest = next;
        } else {
            proof {
                lemma_take_until_ws(rest@);
            }
            let k = tok_len(rest);
            assert(k >= 1);
            let tok = rest.substring_char(0, k).to_owned();
            assert(tok@ == take_until_ws(rest@));
            let next = rest.substring_char(k, n);
            let ghost old_out = out@;
            out.push(tok);
            proof {
                assert(str_views(out@) =~= str_views(old_out).push(tok@));
                assert(str_views(out@) + tokens(next@) =~= str_views(old_out) + (seq![
                    take_until_ws(rest@),
                ] + tokens(rest@.skip(take_until_ws(rest@).len() as int))));
            }
            rest = next;
        }
    }
    out
}

/// The tokens joined with single spaces: empty for no tokens, and otherwise
/// the first `i` tokens separated by one space each.
pub open spec fn join_prefix(ts: Seq<Seq<char>>, i: int) -> Seq<char>
    decreases i,
{
    if i <= 0 {
        Seq::empty()
    } else if i == 1 {
        ts[0]
    } else {
        join_prefix(ts, i - 1) + seq![' '] + ts[i - 1]
    }
}

/// All of `ts` joined with single spaces.
pub open spec fn join_sp(ts: Seq<Seq<char>>) -> Seq<char> {
    join_prefix(ts, ts.len() as int)
}

/// Joins the strings in `ts` with single spaces.
pub fn join_sp_exec(ts: &Vec<String>) -> (r: String)
    ensures
        r@ == join_sp(str_views(ts@)),
{
    let mut out = String::new();
    let mut i: usize = 0;
    while i < ts.len()
        invariant
            i <= ts.len(),
            out@ == join_prefix(str_views(ts@), i as int),
        decreases ts.len() - i,
    {
        if i > 0 {
            out.append(" ");
        }
        out.append(ts[i].as_str());
        proof {
            reveal_strlit(" ");
            assert(" "@ =~= seq![' ']);
            assert(str_views(ts@)[i as int] == ts@[i as int]@);
            assert(out@ =~= join_prefix(str_views(ts@), i as int + 1));
        }
        i = i + 1;
    }
    out
}

} // verus!
