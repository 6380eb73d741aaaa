//! The perf-style script generator.  It replays a validated record sequence
//! against its own stack of rendered frames and emits one formatted
//! call-stack snapshot block per record; the whole conversion is the parse
//! pass followed by this replay.

use vstd::prelude::*;

use crate::parse::{PassOutcome, parse_trace_lines, pass, pass_from, parse_line, is_retained,
    LineOutcome};
use crate::record::{Error, KvView, LogRecord, LogRecordType, RecordView, rec_views};
use crate::text::str_views;

verus! {

/// One rendered argument: `key=value`.
pub open spec fn kv_text(a: KvView) -> Seq<char> {
    a.key + seq!['='] + a.value
}

/// The first `i` arguments rendered and joined with `", "`.
pub open spec fn args_prefix(args: Seq<KvView>, i: int) -> Seq<char>
    decreases i,
{
    if i <= 0 {
        Seq::empty()
    } else if i == 1 {
        kv_text(args[0])
    } else {
        args_prefix(args, i - 1) + seq![',', ' '] + kv_text(args[i - 1])
    }
}

/// The rendered frame of a record: `name(k1=v1, k2=v2, ...)`, with empty
/// parentheses when there are no arguments.
pub open spec fn frame_of(r: RecordView) -> Seq<char> {
    r.function_name + seq!['('] + args_prefix(r.arguments, r.arguments.len() as int) + seq![')']
}

/// The snapshot header: fixed placeholder program, pid, period and unit
/// around the record's timestamp.
pub open spec fn header_of(time: Seq<char>) -> Seq<char> {
    "egg-run-program 1   "@ + time + ":   1 cycles:\n"@
}

/// One frame line of a snapshot: fixed placeholder address and module
/// around the rendered frame.
pub open spec fn frame_line(f: Seq<char>) -> Seq<char> {
    "\t1234 "@ + f + " ([egg-func-lib])\n"@
}

/// The frame lines for the stack entries at index `i` and above, rendered
/// most-recently-pushed first.
pub open spec fn frames_down(stack: Seq<Seq<char>>, i: int) -> Seq<char>
    decreases stack.len() - i,
{
    if !(0 <= i < stack.len()) {
        Seq::empty()
    } else {
        frames_down(stack, i + 1) + frame_line(stack[i])
    }
}

/// One snapshot block: header, one line per frame from innermost to
/// outermost, and a terminating blank line.  An empty stack yields the
/// header followed by the blank line alone.
pub open spec fn block_of(stack: Seq<Seq<char>>, time: Seq<char>) -> Seq<char> {
    header_of(time) + frames_down(stack, 0) + "\n"@
}

/// What replaying the records from index `i` onward yields, given the stack
/// of rendered frames and the blocks emitted so far: the full ordered block
/// sequence, or the index of an `End` that found no open frame.
pub enum GenOutcome {
    Done(Seq<Seq<char>>),
    GenUnderflowAt(int),
}

/// The replay: a `Start` pushes its frame and snapshots, an `End` pops and
/// snapshots the remainder, and a `Simple` point event appears in exactly
/// one snapshot, its frame pushed and popped again around it.
pub open spec fn gen_from(
    recs: Seq<RecordView>,
    i: int,
    stack: Seq<Seq<char>>,
    out: Seq<Seq<char>>,
) -> GenOutcome
    decreases recs.len() - i,
{
    if !(0 <= i < recs.len()) {
        GenOutcome::Done(out)
    } else {
        let r = recs[i];
        match r.record_type {
            LogRecordType::Start => {
                let st2 = stack.push(frame_of(r));
                gen_from(recs, i + 1, st2, out.push(block_of(st2, r.time)))
            },
            LogRecordType::End => {
                if stack.len() == 0 {
                    GenOutcome::GenUnderflowAt(i)
                } else {
                    let st2 = stack.drop_last();
                    gen_from(recs, i + 1, st2, out.push(block_of(st2, r.time)))
                }
            },
            LogRecordType::Simple => {
                let st2 = stack.push(frame_of(r));
                gen_from(recs, i + 1, stack, out.push(block_of(st2, r.time)))
            },
        }
    }
}

/// The whole replay of a record sequence.
pub open spec fn generate(recs: Seq<RecordView>) -> GenOutcome {
    gen_from(recs, 0, Seq::empty(), Seq::empty())
}

/// Renders a record's frame, as [`frame_of`] describes.
pub fn format_log_record(record: &LogRecord) -> (r: String)
    ensures
        r@ == frame_of(record@),
{
    let mut out = String::new();
    out.append(record.function_name.as_str());
    out.append("(");
    proof {
        reveal_strlit("(");
        assert("("@ =~= seq!['(']);
    }
    let mut i: usize = 0;
    while i < record.arguments.len()
        invariant
            i <= record.arguments.len(),
            out@ == record@.function_name + seq!['('] + args_prefix(record@.arguments, i as int),
        decreases record.arguments.len() - i,
    {
        if i > 0 {
            out.append(", ");
        }
        out.append(record.arguments[i].key.as_str());
        out.append("=");
        out.append(record.arguments[i].value.as_str());
        proof {
            reveal_strlit(", ");
            reveal_strlit("=");
            assert(", "@ =~= seq![',', ' ']);
            assert("="@ =~= seq!['=']);
            assert(record@.arguments[i as int] == record.arguments@[i as int]@);
            assert(out@ =~= record@.function_name + seq!['('] + args_prefix(
                record@.arguments,
                i as int + 1,
            ));
        }
        i = i + 1;
    }
    out.append(")");
    proof {
        reveal_strlit(")");
        assert(")"@ =~= seq![')']);
        assert(out@ =~= frame_of(record@));
    }
    out
}

/// Appends to `result_lines` one snapshot block of the given stack of
/// rendered frames, as [`block_of`] describes.
pub fn print_perf_style_stack(stack: &Vec<String>, time: &str, result_lines: &mut Vec<String>)
    ensures
        final(result_lines)@.len() == old(result_lines)@.len() + 1,
        str_views(final(result_lines)@) == str_views(old(result_lines)@).push(
            block_of(str_views(stack@), time@),
        ),
{
    let mut block = String::new();
    block.append("egg-run-program 1   ");
    block.append(time);
    block.append(":   1 cycles:\n");
    assert(block@ == header_of(time@));
    assert(block@ =~= header_of(time@) + frames_down(str_views(stack@), stack@.len() as int));
    let mut i: usize = stack.len();
    while i > 0
        invariant
            i <= stack.len(),
            block@ == header_of(time@) + frames_down(str_views(stack@), i as int),
        decreases i,
    {
        i = i - 1;
        block.append("\t1234 ");
        block.append(stack[i].as_str());
        block.append(" ([egg-func-lib])\n");
        proof {
            assert(str_views(stack@)[i as int] == stack@[i as int]@);
            assert(block@ =~= header_of(time@) + frames_down(str_views(stack@), i as int));
        }
    }
    block.append("\n");
    assert(block@ == block_of(str_views(stack@), time@));
    let ghost olines = result_lines@;
    result_lines.push(block);
    proof {
        assert(str_views(result_lines@) =~= str_views(olines).push(result_lines@.last()@));
    }
}

/// Replays the validated record sequence into the ordered snapshot blocks,
/// as [`generate`] describes: one block per record, in input order.  The
/// underflow check mirrors the validator and cannot fire on a sequence the
/// parse pass accepted.
pub fn generate_perf_style_script(log_records: &Vec<LogRecord>) -> (r: Result<Vec<String>, Error>)
    ensures
        ({
            let g = generate(rec_views(log_records@));
            match r {
                Ok(out) => g == GenOutcome::Done(str_views(out@)) && out@.len()
                    == log_records@.len(),
                Err(e) => e matches Error::StackUnderflow && g matches GenOutcome::GenUnderflowAt(
                    _,
                ),
            }
        }),
{
    let ghost rv = rec_views(log_records@);
    let mut stack: Vec<String> = Vec::new();
    let mut result_lines: Vec<String> = Vec::new();
    proof {
        assert(str_views(stack@) =~= Seq::<Seq<char>>::empty());
        assert(str_views(result_lines@) =~= Seq::<Seq<char>>::empty());
    }
    let mut i: usize = 0;
    while i < log_records.len()
        invariant
            i <= log_records.len(),
            rv == rec_views(log_records@),
            result_lines@.len() == i,
            generate(rv) == gen_from(rv, i as int, str_views(stack@), str_views(result_lines@)),
        decreases log_records.len() - i,
    {
        assert(rv[i as int] == log_records@[i as int]@);
        let log_record = &log_records[i];
        match log_record.record_type {
            LogRecordType::Start => {
                let frame = format_log_record(log_record);
                let ghost ostack = stack@;
                stack.push(frame);
                proof {
                    assert(str_views(stack@) =~= str_views(ostack).push(stack@.last()@));
                }
                print_perf_style_stack(&stack, log_record.time.as_str(), &mut result_lines);
            },
            LogRecordType::End => {
                let ghost ostack = stack@;
                match stack.pop() {
                    None => {
                        return Err(Error::StackUnderflow);
                    },
                    Some(_last) => {
                        proof {
                            assert(str_views(stack@) =~= str_views(ostack).drop_last());
                        }
                        print_perf_style_stack(&stack, log_record.time.as_str(), &mut result_lines);
                    },
                }
            },
            LogRecordType::Simple => {
                let frame = format_log_record(log_record);
                let ghost ostack = stack@;
                stack.push(frame);
                proof {
                    assert(str_views(stack@) =~= str_views(ostack).push(stack@.last()@));
                }
                print_perf_style_stack(&stack, log_record.time.as_str(), &mut result_lines);
                stack.pop();
                proof {
                    assert(str_views(stack@) =~= str_views(ostack));
                }
            },
        }
        i = i + 1;
    }
    Ok(result_lines)
}

/// If the records up to and including `rec` are a prefix of `recs`, then
/// `rec` stands in `recs` right after the shorter prefix `acc`.
proof fn lemma_prefix_step(recs: Seq<RecordView>, acc: Seq<RecordView>, rec: RecordView)
    requires
        acc.len() as int + 1 <= recs.len(),
        recs.take(acc.len() as int + 1) == acc.push(rec),
    ensures
        recs[acc.len() as int] == rec,
        recs.take(acc.len() as int) == acc,
{
    assert(recs.take(acc.len() as int + 1)[acc.len() as int] == rec);
    assert forall|j: int| 0 <= j < acc.len() implies recs.take(acc.len() as int)[j] == acc[j] by {
        assert(recs.take(acc.len() as int + 1)[j] == acc.push(rec)[j]);
    }
    assert(recs.take(acc.len() as int) =~= acc);
}

/// A pass that completed leaves the replay nothing to underflow: the
/// records beyond those already accumulated replay to completion against
/// any frame stack of the same depth as the validator's name stack, and
/// emit one block per remaining record.
pub proof fn lemma_pass_generates(
    ls: Seq<Seq<char>>,
    i: int,
    acc: Seq<RecordView>,
    st_names: Seq<Seq<char>>,
    st_frames: Seq<Seq<char>>,
    out: Seq<Seq<char>>,
    recs: Seq<RecordView>,
)
    requires
        pass_from(ls, i, acc, st_names) == PassOutcome::Complete(recs),
        st_names.len() == st_frames.len(),
    ensures
        acc.len() <= recs.len(),
        recs.take(acc.len() as int) == acc,
        gen_from(recs, acc.len() as int, st_frames, out) matches GenOutcome::Done(blocks)
            && blocks.len() == out.len() + recs.len() - acc.len(),
    decreases ls.len() - i,
{
    if !(0 <= i < ls.len()) {
        assert(recs == acc);
        assert(recs.take(acc.len() as int) =~= acc);
    } else if !is_retained(ls[i]) {
        lemma_pass_generates(ls, i + 1, acc, st_names, st_frames, out, recs);
    } else {
        match parse_line(ls[i]) {
            LineOutcome::Parsed(rec) => {
                let acc2 = acc.push(rec);
                match rec.record_type {
                    LogRecordType::Start => {
                        let stf2 = st_frames.push(frame_of(rec));
                        lemma_pass_generates(
                            ls,
                            i + 1,
                            acc2,
                            st_names.push(rec.function_name),
                            stf2,
                            out.push(block_of(stf2, rec.time)),
                            recs,
                        );
                        lemma_prefix_step(recs, acc, rec);
                    },
                    LogRecordType::End => {
                        lemma_pass_generates(
                            ls,
                            i + 1,
                            acc2,
                            st_names.drop_last(),
                            st_frames.drop_last(),
                            out.push(block_of(st_frames.drop_last(), rec.time)),
                            recs,
                        );
                        lemma_prefix_step(recs, acc, rec);
                    },
                    LogRecordType::Simple => {
                        let stf2 = st_frames.push(frame_of(rec));
                        lemma_pass_generates(
                            ls,
                            i + 1,
                            acc2,
                            st_names,
                            st_frames,
                            out.push(block_of(stf2, rec.time)),
                            recs,
                        );
                        lemma_prefix_step(recs, acc, rec);
                    },
                }
            },
            _ => {},
        }
    }
}

/// The whole conversion: parse and validate the raw lines, then replay the
/// records into snapshot blocks.  It fails exactly when the parse pass
/// fails, and on success yields one block per validated record.
pub fn transform_traces_to_perf_script(lines: Vec<String>) -> (r: Result<Vec<String>, Error>)
    ensures
        ({
            let p = pass(str_views(lines@));
            match r {
                Ok(out) => p matches PassOutcome::Complete(recs) && generate(recs)
                    == GenOutcome::Done(str_views(out@)) && out@.len() == recs.len(),
                Err(e) => match e {
                    Error::SignatureMismatch { line } => p matches PassOutcome::BadSignatureAt(i)
                        && line@ == str_views(lines@)[i],
                    Error::MalformedCallSyntax { line } => p matches PassOutcome::MalformedAt(i)
                        && line@ == str_views(lines@)[i],
                    Error::StackUnderflow => p matches PassOutcome::UnderflowAt(_),
                    Error::StackMismatch { expected, found } => p matches PassOutcome::MismatchAt(
                        _,
                        en,
                        fn_,
                    ) && expected@ == en && found@ == fn_,
                    Error::UnbalancedAtEof { remaining } => p matches PassOutcome::UnbalancedEof(
                        st,
                    ) && str_views(remaining@) == st,
                    Error::IOFailure { .. } => false,
                },
            }
        }),
{
    let ghost lv = str_views(lines@);
    match parse_trace_lines(lines) {
        Err(e) => Err(e),
        Ok(log_records) => {
            proof {
                lemma_pass_generates(
                    lv,
                    0,
                    Seq::empty(),
                    Seq::empty(),
                    Seq::empty(),
                    Seq::empty(),
                    rec_views(log_records@),
                );
                assert(rec_views(log_records@).take(0) =~= Seq::<RecordView>::empty());
            }
            match generate_perf_style_script(&log_records) {
                Ok(script_lines) => Ok(script_lines),
                Err(e) => Err(e),
            }
        },
    }
}

} // verus!
