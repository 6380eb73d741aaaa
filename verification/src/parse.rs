//! The tokenizer and stack validator.  A line is kept only when it begins
//! with the `EPOST_LOG` signature; a kept line is decomposed into a
//! timestamp, an action kind, a function name and an ordered argument list,
//! and the whole pass maintains a stack of open calls that must be properly
//! nested and empty at end of input.
//!
//! The behaviour of the pass is pinned down by the spec function
//! [`pass`], which the executable [`parse_trace_lines`] is proved to follow
//! exactly.

use vstd::prelude::*;

use crate::record::{Error, KeyValuePair, KvView, LogRecord, LogRecordType, RecordView, kv_views,
    rec_views};
use crate::text::{join_sp, spec_find, str_views, tokens, trim_char, trim_ws, find_char,
    join_sp_exec, trim_char_exec, trim_ws_exec, ws_tokens, lemma_spec_find_bounds};

verus! {

/// Index of the first occurrence of the two-character separator `", "`.
pub open spec fn find_sep(s: Seq<char>) -> Option<int>
    decreases s.len(),
{
    if s.len() < 2 {
        None
    } else if s[0] == ',' && s[1] == ' ' {
        Some(0)
    } else {
        match find_sep(s.drop_first()) {
            None => None,
            Some(i) => Some(1 + i),
        }
    }
}

pub proof fn lemma_find_sep_bounds(s: Seq<char>)
    ensures
        match find_sep(s) {
            Some(i) => 0 <= i && i + 2 <= s.len() && s[i] == ',' && s[i + 1] == ' ',
            None => true,
        },
    decreases s.len(),
{
    if s.len() >= 2 && !(s[0] == ',' && s[1] == ' ') {
        lemma_find_sep_bounds(s.drop_first());
    }
}

/// `s` split on each occurrence of `", "`, separators removed; a string
/// without the separator yields itself as the single piece.
pub open spec fn split_sep(s: Seq<char>) -> Seq<Seq<char>>
    decreases s.len(),
    via split_sep_decreases
{
    match find_sep(s) {
        None => seq![s],
        Some(i) => seq![s.take(i)] + split_sep(s.skip(i + 2)),
    }
}

#[via_fn]
proof fn split_sep_decreases(s: Seq<char>) {
    lemma_find_sep_bounds(s);
}

/// The key/value reading of one argument piece: `Some` exactly when the
/// piece contains exactly one `=`, split there.
pub open spec fn piece_kv(p: Seq<char>) -> Option<KvView> {
    match spec_find(p, '=') {
        None => None,
        Some(j) => {
            if spec_find(p.skip(j + 1), '=') is Some {
                None
            } else {
                Some(KvView { key: p.take(j), value: p.skip(j + 1) })
            }
        },
    }
}

/// The well-formed pieces of `ps`, in order; pieces without exactly one `=`
/// are dropped.
pub open spec fn args_of(ps: Seq<Seq<char>>) -> Seq<KvView>
    decreases ps.len(),
{
    if ps.len() == 0 {
        Seq::empty()
    } else {
        (match piece_kv(ps[0]) {
            Some(kv) => seq![kv],
            None => Seq::empty(),
        }) + args_of(ps.drop_first())
    }
}

/// The ordered argument list read from an argument string.
pub open spec fn spec_args(s: Seq<char>) -> Seq<KvView> {
    args_of(split_sep(s))
}

/// How many times `c` occurs in `s`.
pub open spec fn count_char(s: Seq<char>, c: char) -> nat
    decreases s.len(),
{
    if s.len() == 0 {
        0
    } else {
        (if s[0] == c {
            1nat
        } else {
            0nat
        }) + count_char(s.drop_first(), c)
    }
}

/// The first occurrence splits the count: none at all means a count of
/// zero, and one at `j` means one more than the count after it.
proof fn lemma_count_char_find(s: Seq<char>, c: char)
    ensures
        match spec_find(s, c) {
            None => count_char(s, c) == 0,
            Some(j) => count_char(s, c) == 1 + count_char(s.skip(j + 1), c),
        },
    decreases s.len(),
{
    if s.len() > 0 {
        lemma_count_char_find(s.drop_first(), c);
        if s[0] == c {
            assert(s.skip(1) =~= s.drop_first());
        } else {
            if let Some(j) = spec_find(s.drop_first(), c) {
                lemma_spec_find_bounds(s.drop_first(), c);
                assert(s.skip(1 + j + 1) =~= s.drop_first().skip(j + 1));
            }
        }
    }
}

/// A piece survives as an argument pair exactly when it contains exactly
/// one `=`.
pub proof fn lemma_piece_kept_iff_one_eq(p: Seq<char>)
    ensures
        piece_kv(p) is Some <==> count_char(p, '=') == 1,
{
    lemma_count_char_find(p, '=');
    if let Some(j) = spec_find(p, '=') {
        lemma_count_char_find(p.skip(j + 1), '=');
    }
}

/// The sequence of pairs read from the pieces that contain exactly one
/// `=`, in piece order.
pub open spec fn kept_args(ps: Seq<Seq<char>>) -> Seq<KvView> {
    ps.filter_map(|p: Seq<char>| piece_kv(p))
}

/// Reading arguments distributes over concatenation of the piece lists.
proof fn lemma_args_of_app(a: Seq<Seq<char>>, b: Seq<Seq<char>>)
    ensures
        args_of(a + b) == args_of(a) + args_of(b),
    decreases a.len(),
{
    if a.len() == 0 {
        assert(a + b =~= b);
        assert(args_of(a) + args_of(b) =~= args_of(b));
    } else {
        assert((a + b).drop_first() =~= a.drop_first() + b);
        assert((a + b)[0] == a[0]);
        lemma_args_of_app(a.drop_first(), b);
        match piece_kv(a[0]) {
            Some(kv) => {
                assert(seq![kv] + (args_of(a.drop_first()) + args_of(b)) =~= (seq![kv] + args_of(
                    a.drop_first(),
                )) + args_of(b));
            },
            None => {
                assert(Seq::<KvView>::empty() + (args_of(a.drop_first()) + args_of(b)) =~= (Seq::<
                    KvView,
                >::empty() + args_of(a.drop_first())) + args_of(b));
            },
        }
    }
}

/// Ill-formed pieces are dropped and well-formed pieces keep their input
/// order: reading arguments is exactly filtering the pieces through
/// [`piece_kv`].
pub proof fn lemma_args_keep_order(ps: Seq<Seq<char>>)
    ensures
        args_of(ps) == kept_args(ps),
    decreases ps.len(),
{
    if ps.len() == 0 {
        assert(kept_args(ps) =~= Seq::<KvView>::empty());
    } else {
        lemma_args_keep_order(ps.drop_last());
        lemma_args_of_app(ps.drop_last(), seq![ps.last()]);
        assert(ps.drop_last() + seq![ps.last()] =~= ps);
        assert(seq![ps.last()].drop_first() =~= Seq::<Seq<char>>::empty());
        assert(seq![ps.last()][0] == ps.last());
        assert(args_of(Seq::<Seq<char>>::empty()) =~= Seq::<KvView>::empty());
        match piece_kv(ps.last()) {
            Some(kv) => {
                assert(args_of(seq![ps.last()]) =~= seq![kv]);
                assert(kept_args(ps) == kept_args(ps.drop_last()) + seq![kv]);
            },
            None => {
                assert(args_of(seq![ps.last()]) =~= Seq::<KvView>::empty());
                assert(kept_args(ps) == kept_args(ps.drop_last()));
                assert(args_of(ps.drop_last()) + Seq::<KvView>::empty() =~= args_of(
                    ps.drop_last(),
                ));
            },
        }
    }
}

/// First index of `", "`, or `None`.
fn find_sep_exec(s: &str) -> (r: Option<usize>)
    ensures
        match r {
            Some(i) => find_sep(s@) == Some(i as int),
            None => find_sep(s@) == None::<int>,
        },
    decreases s@.len(),
{
    let n = s.unicode_len();
    if n < 2 {
        None
    } else if s.get_char(0) == ',' && s.get_char(1) == ' ' {
        Some(0)
    } else {
        let rest = s.substring_char(1, n);
        assert(rest@ == s@.drop_first());
        match find_sep_exec(rest) {
            None => None,
            Some(i) => {
                proof {
                    lemma_find_sep_bounds(rest@);
                }
                Some(i + 1)
            },
        }
    }
}

/// Splits `s` on each `", "`.
fn split_sep_exec(s: &str) -> (r: Vec<String>)
    ensures
        str_views(r@) == split_sep(s@),
{
    let mut out: Vec<String> = Vec::new();
    let mut rest: &str = s;
    loop
        invariant
            split_sep(s@) == str_views(out@) + split_sep(rest@),
        decreases rest@.len(),
    {
        proof {
            lemma_find_sep_bounds(rest@);
        }
        match find_sep_exec(rest) {
            None => {
                let ghost old_out = out@;
                out.push(rest.to_owned());
                proof {
                    assert(str_views(out@) =~= str_views(old_out).push(rest@));
                    assert(str_views(out@) =~= str_views(old_out) + seq![rest@]);
                }
                break;
            },
            Some(i) => {
                let n = rest.unicode_len();
                let piece = rest.substring_char(0, i).to_owned();
                let next = rest.substring_char(i + 2, n);
                let ghost old_out = out@;
                out.push(piece);
                proof {
                    assert(str_views(out@) =~= str_views(old_out).push(rest@.take(i as int)));
                    assert(str_views(out@) + split_sep(next@) =~= str_views(old_out) + (seq![
                        rest@.take(i as int),
                    ] + split_sep(rest@.skip(i + 2))));
                }
                rest = next;
            },
        }
    }
    out
}

/// The key/value reading of one piece, as [`piece_kv`] describes.
fn piece_kv_exec(p: &str) -> (r: Option<KeyValuePair>)
    ensures
        match r {
            Some(kv) => piece_kv(p@) == Some(kv@),
            None => piece_kv(p@) == None::<KvView>,
        },
{
    match find_char(p, '=') {
        None => None,
        Some(j) => {
            proof {
                lemma_spec_find_bounds(p@, '=');
            }
            let n = p.unicode_len();
            let after = p.substring_char(j + 1, n);
            match find_char(after, '=') {
                Some(_) => None,
                None => {
                    let key = p.substring_char(0, j).to_owned();
                    Some(KeyValuePair { key, value: after.to_owned() })
                },
            }
        },
    }
}

/// Reads the ordered argument list out of an argument string, dropping every
/// piece that does not contain exactly one `=`.
pub fn parse_args(s: &str) -> (r: Vec<KeyValuePair>)
    ensures
        kv_views(r@) == spec_args(s@),
{
    let pieces = split_sep_exec(s);
    let mut out: Vec<KeyValuePair> = Vec::new();
    let ghost pv = str_views(pieces@);
    proof {
        assert(pv.skip(0) =~= pv);
        assert(kv_views(out@) =~= Seq::<KvView>::empty());
    }
    let mut i: usize = 0;
    while i < pieces.len()
        invariant
            i <= pieces.len(),
            pv == str_views(pieces@),
            args_of(pv) == kv_views(out@) + args_of(pv.skip(i as int)),
        decreases pieces.len() - i,
    {
        assert(pv[i as int] == pieces@[i as int]@);
        assert(pv.skip(i as int).drop_first() =~= pv.skip(i as int + 1));
        let ghost old_out = out@;
        match piece_kv_exec(pieces[i].as_str()) {
            Some(kv) => {
                out.push(kv);
                proof {
                    assert(kv_views(out@) =~= kv_views(old_out).push(kv@));
                    assert(kv_views(out@) + args_of(pv.skip(i as int + 1)) =~= kv_views(old_out)
                        + (seq![kv@] + args_of(pv.skip(i as int).drop_first())));
                }
            },
            None => {
                proof {
                    assert(kv_views(out@) + args_of(pv.skip(i as int + 1)) =~= kv_views(old_out)
                        + (Seq::<KvView>::empty() + args_of(pv.skip(i as int).drop_first())));
                }
            },
        }
        i = i + 1;
    }
    assert(pv.skip(pieces@.len() as int) =~= Seq::<Seq<char>>::empty());
    assert(args_of(pv) =~= kv_views(out@));
    out
}

/// Whether a raw line is kept: it must begin with the signature token.
pub open spec fn is_retained(s: Seq<char>) -> bool {
    "EPOST_LOG"@.len() <= s.len() && s.take("EPOST_LOG"@.len() as int) == "EPOST_LOG"@
}

/// Whether a raw line is kept, as [`is_retained`] describes.
pub fn is_retained_exec(s: &str) -> (b: bool)
    ensures
        b == is_retained(s@),
{
    let pat = "EPOST_LOG";
    proof {
        reveal_strlit("EPOST_LOG");
    }
    let n = s.unicode_len();
    if n < 9 {
        return false;
    }
    let mut j: usize = 0;
    while j < 9
        invariant
            j <= 9,
            9 <= s@.len(),
            forall|k: int| 0 <= k < j ==> s@[k] == pat@[k],
        decreases 9 - j,
    {
        if s.get_char(j) != pat.get_char(j) {
            assert(s@.take(9)[j as int] != pat@[j as int]);
            return false;
        }
        j = j + 1;
    }
    assert(s@.take(9) =~= pat@);
    true
}

/// What tokenizing one kept line yields: a record view, or one of the two
/// per-line failures.
pub enum LineOutcome {
    Parsed(RecordView),
    BadSignature,
    Malformed,
}

/// Tokenizes one line exactly as the executable parser does: split at the
/// first `:`; whitespace-split the prefix into the signature and the
/// bracketed timestamp; whitespace-split the body and take a trailing
/// `START`/`END` token as the action; split the remaining phrase at a single
/// `(` into function name and argument string.
pub open spec fn parse_line(s: Seq<char>) -> LineOutcome {
    match spec_find(s, ':') {
        None => LineOutcome::Malformed,
        Some(ci) => {
            let ptoks = tokens(s.take(ci));
            if ptoks.len() == 0 {
                LineOutcome::Malformed
            } else if ptoks[0] != "EPOST_LOG"@ {
                LineOutcome::BadSignature
            } else if ptoks.len() < 2 {
                LineOutcome::Malformed
            } else {
                let time = trim_char(trim_char(ptoks[1], '['), ']');
                let btoks = tokens(s.skip(ci + 1));
                if btoks.len() == 0 {
                    LineOutcome::Malformed
                } else {
                    let kind = if btoks.last() == "START"@ {
                        LogRecordType::Start
                    } else if btoks.last() == "END"@ {
                        LogRecordType::End
                    } else {
                        LogRecordType::Simple
                    };
                    let phrase = if kind == LogRecordType::Simple {
                        join_sp(btoks)
                    } else {
                        join_sp(btoks.drop_last())
                    };
                    match spec_find(phrase, '(') {
                        None => LineOutcome::Parsed(
                            RecordView {
                                time,
                                record_type: kind,
                                function_name: trim_ws(phrase),
                                arguments: Seq::empty(),
                            },
                        ),
                        Some(pi) => {
                            let after = phrase.skip(pi + 1);
                            if spec_find(after, '(') is Some {
                                LineOutcome::Malformed
                            } else {
                                LineOutcome::Parsed(
                                    RecordView {
                                        time,
                                        record_type: kind,
                                        function_name: trim_ws(phrase.take(pi)),
                                        arguments: spec_args(trim_ws(trim_char(after, ')'))),
                                    },
                                )
                            }
                        },
                    }
                }
            }
        },
    }
}

/// What the whole pass over the input yields: the validated record views,
/// or the first failure, each with enough detail to name the culprits.
pub enum PassOutcome {
    /// Every kept line parsed and the call stack closed properly.
    Complete(Seq<RecordView>),
    /// Line `i` carried a wrong signature.
    BadSignatureAt(int),
    /// Line `i` could not be tokenized.
    MalformedAt(int),
    /// Line `i` is an `End` with no open call.
    UnderflowAt(int),
    /// Line `i` is an `End` whose name differs from the innermost open
    /// call: the name it closes, then the name that was open.
    MismatchAt(int, Seq<char>, Seq<char>),
    /// Calls still open at end of input, outermost first.
    UnbalancedEof(Seq<Seq<char>>),
}

/// One forward pass from line `i` onward, with the records accumulated so
/// far and the stack of open call names: tokenization and stack validation
/// in a single sweep.
pub open spec fn pass_from(
    ls: Seq<Seq<char>>,
    i: int,
    acc: Seq<RecordView>,
    stack: Seq<Seq<char>>,
) -> PassOutcome
    decreases ls.len() - i,
{
    if !(0 <= i < ls.len()) {
        if stack.len() == 0 {
            PassOutcome::Complete(acc)
        } else {
            PassOutcome::UnbalancedEof(stack)
        }
    } else if !is_retained(ls[i]) {
        pass_from(ls, i + 1, acc, stack)
    } else {
        match parse_line(ls[i]) {
            LineOutcome::BadSignature => PassOutcome::BadSignatureAt(i),
            LineOutcome::Malformed => PassOutcome::MalformedAt(i),
            LineOutcome::Parsed(rec) => {
                let acc2 = acc.push(rec);
                match rec.record_type {
                    LogRecordType::Start => pass_from(ls, i + 1, acc2, stack.push(
                        rec.function_name,
                    )),
                    LogRecordType::End => {
                        if stack.len() == 0 {
                            PassOutcome::UnderflowAt(i)
                        } else if stack.last() != rec.function_name {
                            PassOutcome::MismatchAt(i, rec.function_name, stack.last())
                        } else {
                            pass_from(ls, i + 1, acc2, stack.drop_last())
                        }
                    },
                    LogRecordType::Simple => pass_from(ls, i + 1, acc2, stack),
                }
            },
        }
    }
}

/// The whole pass over the input lines.
pub open spec fn pass(ls: Seq<Seq<char>>) -> PassOutcome {
    pass_from(ls, 0, Seq::empty(), Seq::empty())
}

/// How many lines from `i` onward are kept.
pub open spec fn n_retained_from(ls: Seq<Seq<char>>, i: int) -> nat
    decreases ls.len() - i,
{
    if !(0 <= i < ls.len()) {
        0
    } else {
        (if is_retained(ls[i]) {
            1nat
        } else {
            0nat
        }) + n_retained_from(ls, i + 1)
    }
}

/// How many input lines are kept.
pub open spec fn n_retained(ls: Seq<Seq<char>>) -> nat {
    n_retained_from(ls, 0)
}

/// A completed pass yields exactly one record per kept line.
pub proof fn lemma_pass_count(ls: Seq<Seq<char>>, i: int, acc: Seq<RecordView>, stack: Seq<
    Seq<char>,
>)
    requires
        pass_from(ls, i, acc, stack) matches PassOutcome::Complete(recs),
    ensures
        pass_from(ls, i, acc, stack) matches PassOutcome::Complete(recs) ==> recs.len()
            == acc.len() + n_retained_from(ls, i),
    decreases ls.len() - i,
{
    if 0 <= i < ls.len() {
        if !is_retained(ls[i]) {
            lemma_pass_count(ls, i + 1, acc, stack);
        } else {
            match parse_line(ls[i]) {
                LineOutcome::Parsed(rec) => {
                    let acc2 = acc.push(rec);
                    match rec.record_type {
                        LogRecordType::Start => {
                            lemma_pass_count(ls, i + 1, acc2, stack.push(rec.function_name));
                        },
                        LogRecordType::End => {
                            lemma_pass_count(ls, i + 1, acc2, stack.drop_last());
                        },
                        LogRecordType::Simple => {
                            lemma_pass_count(ls, i + 1, acc2, stack);
                        },
                    }
                },
                _ => {},
            }
        }
    }
}

/// The record views of the kept lines from `i` onward that tokenize
/// cleanly, in input order.
pub open spec fn parsed_from(ls: Seq<Seq<char>>, i: int) -> Seq<RecordView>
    decreases ls.len() - i,
{
    if !(0 <= i < ls.len()) {
        Seq::empty()
    } else if !is_retained(ls[i]) {
        parsed_from(ls, i + 1)
    } else {
        match parse_line(ls[i]) {
            LineOutcome::Parsed(rec) => seq![rec] + parsed_from(ls, i + 1),
            _ => parsed_from(ls, i + 1),
        }
    }
}

/// Whether a record sequence is a well-nested forest: a sequence of point
/// events and of `Start f ... End f` spans whose interiors are themselves
/// well-nested.
pub open spec fn well_nested(recs: Seq<RecordView>) -> bool
    decreases recs.len(),
{
    if recs.len() == 0 {
        true
    } else if recs[0].record_type == LogRecordType::Simple {
        well_nested(recs.drop_first())
    } else if recs[0].record_type == LogRecordType::Start {
        exists|j: int|
            1 <= j < recs.len() && (#[trigger] recs[j]).record_type == LogRecordType::End
                && recs[j].function_name == recs[0].function_name && well_nested(
                recs.subrange(1, j),
            ) && well_nested(recs.subrange(j + 1, recs.len() as int))
    } else {
        false
    }
}

/// The stack discipline run over a record sequence alone: `None` on an
/// `End` that underflows or closes the wrong name, and otherwise the final
/// stack of open names.
pub open spec fn run_stack(recs: Seq<RecordView>, stack: Seq<Seq<char>>) -> Option<Seq<Seq<char>>>
    decreases recs.len(),
{
    if recs.len() == 0 {
        Some(stack)
    } else {
        let r = recs[0];
        match r.record_type {
            LogRecordType::Start => run_stack(recs.drop_first(), stack.push(r.function_name)),
            LogRecordType::End => {
                if stack.len() == 0 || stack.last() != r.function_name {
                    None
                } else {
                    run_stack(recs.drop_first(), stack.drop_last())
                }
            },
            LogRecordType::Simple => run_stack(recs.drop_first(), stack),
        }
    }
}

/// The stack discipline over a concatenation runs the two halves in turn.
proof fn lemma_run_stack_app(a: Seq<RecordView>, b: Seq<RecordView>, stack: Seq<Seq<char>>)
    ensures
        run_stack(a + b, stack) == (match run_stack(a, stack) {
            Some(mid) => run_stack(b, mid),
            None => None,
        }),
    decreases a.len(),
{
    if a.len() == 0 {
        assert(a + b =~= b);
    } else {
        assert((a + b).drop_first() =~= a.drop_first() + b);
        assert((a + b)[0] == a[0]);
        match a[0].record_type {
            LogRecordType::Start => {
                lemma_run_stack_app(a.drop_first(), b, stack.push(a[0].function_name));
            },
            LogRecordType::End => {
                if !(stack.len() == 0 || stack.last() != a[0].function_name) {
                    lemma_run_stack_app(a.drop_first(), b, stack.drop_last());
                }
            },
            LogRecordType::Simple => {
                lemma_run_stack_app(a.drop_first(), b, stack);
            },
        }
    }
}

/// A well-nested record sequence runs the stack discipline cleanly and
/// leaves any starting stack exactly as it found it.
pub proof fn lemma_well_nested_runs(recs: Seq<RecordView>, stack: Seq<Seq<char>>)
    requires
        well_nested(recs),
    ensures
        run_stack(recs, stack) == Some(stack),
    decreases recs.len(),
{
    if recs.len() == 0 {
    } else if recs[0].record_type == LogRecordType::Simple {
        lemma_well_nested_runs(recs.drop_first(), stack);
    } else {
        let j = choose|j: int|
            1 <= j < recs.len() && (#[trigger] recs[j]).record_type == LogRecordType::End
                && recs[j].function_name == recs[0].function_name && well_nested(
                recs.subrange(1, j),
            ) && well_nested(recs.subrange(j + 1, recs.len() as int));
        let inner = recs.subrange(1, j);
        let close = seq![recs[j]];
        let tail = recs.subrange(j + 1, recs.len() as int);
        assert(recs.drop_first() =~= inner + (close + tail));
        let st1 = stack.push(recs[0].function_name);
        lemma_well_nested_runs(inner, st1);
        lemma_run_stack_app(inner, close + tail, st1);
        lemma_run_stack_app(close, tail, st1);
        assert(close.drop_first() =~= Seq::<RecordView>::empty());
        assert(close[0] == recs[j]);
        assert(st1.drop_last() =~= stack);
        assert(run_stack(close, st1) == run_stack(close.drop_first(), st1.drop_last()));
        assert(run_stack(close.drop_first(), st1.drop_last()) == Some(stack));
        lemma_well_nested_runs(tail, stack);
    }
}

/// A clean stack run over the records still to come carries the pass to
/// completion: the records accumulated so far, extended by those records.
proof fn lemma_run_stack_pass(
    ls: Seq<Seq<char>>,
    i: int,
    acc: Seq<RecordView>,
    stack: Seq<Seq<char>>,
)
    requires
        forall|k: int|
            i <= k < ls.len() && is_retained(ls[k]) ==> (#[trigger] parse_line(ls[k]))
                is Parsed,
        run_stack(parsed_from(ls, i), stack) == Some(Seq::<Seq<char>>::empty()),
    ensures
        pass_from(ls, i, acc, stack) == PassOutcome::Complete(acc + parsed_from(ls, i)),
    decreases ls.len() - i,
{
    if !(0 <= i < ls.len()) {
        assert(stack.len() == 0);
        assert(acc + parsed_from(ls, i) =~= acc);
    } else if !is_retained(ls[i]) {
        lemma_run_stack_pass(ls, i + 1, acc, stack);
    } else {
        let rec = parse_line(ls[i])->Parsed_0;
        let rest = parsed_from(ls, i + 1);
        assert(parsed_from(ls, i) == seq![rec] + rest);
        assert((seq![rec] + rest).drop_first() =~= rest);
        assert((seq![rec] + rest)[0] == rec);
        match rec.record_type {
            LogRecordType::Start => {
                lemma_run_stack_pass(ls, i + 1, acc.push(rec), stack.push(rec.function_name));
                assert(acc.push(rec) + rest =~= acc + (seq![rec] + rest));
            },
            LogRecordType::End => {
                assert(stack.len() > 0 && stack.last() == rec.function_name);
                lemma_run_stack_pass(ls, i + 1, acc.push(rec), stack.drop_last());
                assert(acc.push(rec) + rest =~= acc + (seq![rec] + rest));
            },
            LogRecordType::Simple => {
                lemma_run_stack_pass(ls, i + 1, acc.push(rec), stack);
                assert(acc.push(rec) + rest =~= acc + (seq![rec] + rest));
            },
        }
    }
}

/// When every kept line tokenizes and every `Start` has a correctly nested
/// matching `End`, the pass succeeds and yields exactly the records of the
/// kept lines.
pub proof fn lemma_well_nested_input_parses(ls: Seq<Seq<char>>)
    requires
        forall|k: int|
            0 <= k < ls.len() && is_retained(ls[k]) ==> (#[trigger] parse_line(ls[k]))
                is Parsed,
        well_nested(parsed_from(ls, 0)),
    ensures
        pass(ls) == PassOutcome::Complete(parsed_from(ls, 0)),
{
    lemma_well_nested_runs(parsed_from(ls, 0), Seq::empty());
    lemma_run_stack_pass(ls, 0, Seq::empty(), Seq::empty());
    assert(Seq::<RecordView>::empty() + parsed_from(ls, 0) =~= parsed_from(ls, 0));
}

/// An `End` record whose name differs from the innermost open `Start`
/// fails the pass right there with a mismatch naming both: the name the
/// record tried to close and the name that was open.
pub proof fn lemma_end_name_mismatch(
    ls: Seq<Seq<char>>,
    i: int,
    acc: Seq<RecordView>,
    stack: Seq<Seq<char>>,
    rec: RecordView,
)
    requires
        0 <= i < ls.len(),
        is_retained(ls[i]),
        parse_line(ls[i]) == LineOutcome::Parsed(rec),
        rec.record_type == LogRecordType::End,
        stack.len() > 0,
        stack.last() != rec.function_name,
    ensures
        pass_from(ls, i, acc, stack) == PassOutcome::MismatchAt(i, rec.function_name, stack.last()),
{
}

/// An `End` record with no open `Start` at all fails the pass right there
/// with a stack underflow.
pub proof fn lemma_end_without_open(
    ls: Seq<Seq<char>>,
    i: int,
    acc: Seq<RecordView>,
    rec: RecordView,
)
    requires
        0 <= i < ls.len(),
        is_retained(ls[i]),
        parse_line(ls[i]) == LineOutcome::Parsed(rec),
        rec.record_type == LogRecordType::End,
    ensures
        pass_from(ls, i, acc, Seq::empty()) == PassOutcome::UnderflowAt(i),
{
}

/// Calls still open when the input ends fail the pass with an unbalanced
/// end of file naming exactly those open calls.
pub proof fn lemma_open_calls_at_eof(ls: Seq<Seq<char>>, acc: Seq<RecordView>, stack: Seq<
    Seq<char>,
>)
    requires
        stack.len() > 0,
    ensures
        pass_from(ls, ls.len() as int, acc, stack) == PassOutcome::UnbalancedEof(stack),
{
}

/// Tokenizes one kept line into a record, as [`parse_line`] describes.
pub fn parse_record(raw: &String) -> (r: Result<LogRecord, Error>)
    ensures
        (match r {
            Ok(rec) => parse_line(raw@) == LineOutcome::Parsed(rec@),
            Err(e) => match e {
                Error::SignatureMismatch { line } => parse_line(raw@) == LineOutcome::BadSignature
                    && line@ == raw@,
                Error::MalformedCallSyntax { line } => parse_line(raw@) == LineOutcome::Malformed
                    && line@ == raw@,
                _ => false,
            },
        }),
{
    let s = raw.as_str();
    let n = s.unicode_len();
    let ci = match find_char(s, ':') {
        None => {
            return Err(Error::MalformedCallSyntax { line: raw.clone() });
        },
        Some(ci) => ci,
    };
    proof {
        lemma_spec_find_bounds(s@, ':');
    }
    let prefix = s.substring_char(0, ci);
    assert(prefix@ == s@.take(ci as int));
    let ptoks = ws_tokens(prefix);
    if ptoks.len() == 0 {
        return Err(Error::MalformedCallSyntax { line: raw.clone() });
    }
    assert(tokens(prefix@)[0] == ptoks@[0]@);
    let sig = "EPOST_LOG".to_owned();
    if !(ptoks[0] == sig) {
        return Err(Error::SignatureMismatch { line: raw.clone() });
    }
    if ptoks.len() < 2 {
        return Err(Error::MalformedCallSyntax { line: raw.clone() });
    }
    assert(tokens(prefix@)[1] == ptoks@[1]@);
    let time = trim_char_exec(trim_char_exec(ptoks[1].as_str(), '['), ']').to_owned();
    let body = s.substring_char(ci + 1, n);
    assert(body@ == s@.skip(ci + 1));
    let btoks = ws_tokens(body);
    if btoks.len() == 0 {
        return Err(Error::MalformedCallSyntax { line: raw.clone() });
    }
    assert(tokens(body@).last() == btoks@[btoks@.len() - 1]@);
    let start_tok = "START".to_owned();
    let end_tok = "END".to_owned();
    let kind: LogRecordType = if btoks[btoks.len() - 1] == start_tok {
        LogRecordType::Start
    } else if btoks[btoks.len() - 1] == end_tok {
        LogRecordType::End
    } else {
        LogRecordType::Simple
    };
    let phrase: String = match kind {
        LogRecordType::Simple => join_sp_exec(&btoks),
        _ => {
            let mut bt = btoks;
            let ghost obt = bt@;
            bt.pop();
            assert(str_views(bt@) =~= str_views(obt).drop_last());
            join_sp_exec(&bt)
        },
    };
    let ghost sphrase = if kind == LogRecordType::Simple {
        join_sp(tokens(body@))
    } else {
        join_sp(tokens(body@).drop_last())
    };
    assert(phrase@ == sphrase) by {
        if kind != LogRecordType::Simple {
            assert(str_views(btoks@).drop_last() =~= tokens(body@).drop_last());
        }
    }
    let pn = phrase.as_str().unicode_len();
    match find_char(phrase.as_str(), '(') {
        None => {
            let function_name = trim_ws_exec(phrase.as_str()).to_owned();
            let rec = LogRecord { time, record_type: kind, function_name, arguments: Vec::new() };
            proof {
                assert(kv_views(rec.arguments@) =~= Seq::<KvView>::empty());
            }
            Ok(rec)
        },
        Some(pi) => {
            proof {
                lemma_spec_find_bounds(phrase@, '(');
            }
            let before = phrase.as_str().substring_char(0, pi);
            assert(before@ == sphrase.take(pi as int));
            let after = phrase.as_str().substring_char(pi + 1, pn);
            assert(after@ == sphrase.skip(pi + 1));
            match find_char(after, '(') {
                Some(_) => Err(Error::MalformedCallSyntax { line: raw.clone() }),
                None => {
                    let function_name = trim_ws_exec(before).to_owned();
                    let args_str = trim_ws_exec(trim_char_exec(after, ')'));
                    let arguments = parse_args(args_str);
                    let rec = LogRecord { time, record_type: kind, function_name, arguments };
                    Ok(rec)
                },
            }
        },
    }
}

/// Parses the raw input lines into the validated record sequence.
///
/// Lines not beginning with the signature token are discarded silently.
/// Every kept line is tokenized as [`parse_line`] describes, and the pass
/// maintains the stack of open calls: an `End` must close the innermost
/// open `Start`, and no call may remain open at end of input.  The result
/// is exactly what the spec-level [`pass`] yields, and on success the
/// number of records equals the number of kept lines.
pub fn parse_trace_lines(lines: Vec<String>) -> (r: Result<Vec<LogRecord>, Error>)
    ensures
        ({
            let p = pass(str_views(lines@));
            match r {
                Ok(recs) => p == PassOutcome::Complete(rec_views(recs@)) && recs@.len()
                    == n_retained(str_views(lines@)),
                Err(e) => match e {
                    Error::SignatureMismatch { line } => p matches PassOutcome::BadSignatureAt(i)
                        && line@ == str_views(lines@)[i],
                    Error::MalformedCallSyntax { line } => p matches PassOutcome::MalformedAt(i)
                        && line@ == str_views(lines@)[i],
                    Error::StackUnderflow => p matches PassOutcome::UnderflowAt(_),
                    Error::StackMismatch { expected, found } => p matches PassOutcome::MismatchAt(
                        _,
                        en,
                        fn_,
                    ) && expected@ == en && found@ == fn_,
                    Error::UnbalancedAtEof { remaining } => p matches PassOutcome::UnbalancedEof(
                        st,
                    ) && str_views(remaining@) == st,
                    Error::IOFailure { .. } => false,
                },
            }
        }),
{
    let ghost lv = str_views(lines@);
    let mut records: Vec<LogRecord> = Vec::new();
    let mut stack: Vec<String> = Vec::new();
    proof {
        assert(rec_views(records@) =~= Seq::<RecordView>::empty());
        assert(str_views(stack@) =~= Seq::<Seq<char>>::empty());
    }
    let mut i: usize = 0;
    while i < lines.len()
        invariant
            i <= lines.len(),
            lv == str_views(lines@),
            pass(lv) == pass_from(lv, i as int, rec_views(records@), str_views(stack@)),
        decreases lines.len() - i,
    {
        assert(lv[i as int] == lines@[i as int]@);
        let line = &lines[i];
        if is_retained_exec(line.as_str()) {
            match parse_record(line) {
                Err(e) => {
                    return Err(e);
                },
                Ok(rec) => {
                    let fname = rec.function_name.clone();
                    let ghost orecs = records@;
                    let ghost ostack = stack@;
                    match rec.record_type {
                        LogRecordType::Start => {
                            records.push(rec);
                            stack.push(fname);
                            proof {
                                assert(rec_views(records@) =~= rec_views(orecs).push(
                                    records@.last()@,
                                ));
                                assert(str_views(stack@) =~= str_views(ostack).push(
                                    stack@.last()@,
                                ));
                            }
                        },
                        LogRecordType::End => {
                            match stack.pop() {
                                None => {
                                    return Err(Error::StackUnderflow);
                                },
                                Some(top) => {
                                    proof {
                                        assert(str_views(ostack).last() == ostack.last()@);
                                        assert(str_views(stack@) =~= str_views(
                                            ostack,
                                        ).drop_last());
                                    }
                                    if !(top == fname) {
                                        return Err(Error::StackMismatch {
                                            expected: fname,
                                            found: top,
                                        });
                                    }
                                    records.push(rec);
                                    proof {
                                        assert(rec_views(records@) =~= rec_views(orecs).push(
                                            records@.last()@,
                                        ));
                                    }
                                },
                            }
                        },
                        LogRecordType::Simple => {
                            records.push(rec);
                            proof {
                                assert(rec_views(records@) =~= rec_views(orecs).push(
                                    records@.last()@,
                                ));
                            }
                        },
                    }
                },
            }
        }
        i = i + 1;
    }
    if stack.len() > 0 {
        return Err(Error::UnbalancedAtEof { remaining: stack });
    }
    proof {
        lemma_pass_count(lv, 0, Seq::empty(), Seq::empty());
    }
    Ok(records)
}

} // verus!
