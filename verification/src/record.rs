//! The data model: one log record per retained input line, plus the error
//! kinds a conversion can fail with.

use vstd::prelude::*;

use crate::text::str_views;

verus! {

/// One call argument, order preserved as encountered.
#[derive(Debug)]
pub struct KeyValuePair {
    pub key: String,
    pub value: String,
}

/// Mathematical view of a [`KeyValuePair`].
pub struct KvView {
    pub key: Seq<char>,
    pub value: Seq<char>,
}

impl View for KeyValuePair {
    type V = KvView;

    open spec fn view(&self) -> KvView {
        KvView { key: self.key@, value: self.value@ }
    }
}

/// The views of a sequence of key/value pairs.
pub open spec fn kv_views(s: Seq<KeyValuePair>) -> Seq<KvView> {
    s.map_values(|a: KeyValuePair| a@)
}

/// The kind of a log record: `Start`/`End` denote a call's entry and exit,
/// `Simple` an instantaneous point event with no stack effect.
#[derive(Debug, Clone, Copy, PartialEq, Eq, Structural)]
pub enum LogRecordType {
    Start,
    End,
    Simple,
}

/// One validated log record, immutable once constructed.
#[derive(Debug)]
pub struct LogRecord {
    pub time: String,
    pub record_type: LogRecordType,
    pub function_name: String,
    pub arguments: Vec<KeyValuePair>,
}

/// Mathematical view of a [`LogRecord`].
pub struct RecordView {
    pub time: Seq<char>,
    pub record_type: LogRecordType,
    pub function_name: Seq<char>,
    pub arguments: Seq<KvView>,
}

impl View for LogRecord {
    type V = RecordView;

    open spec fn view(&self) -> RecordView {
        RecordView {
            time: self.time@,
            record_type: self.record_type,
            function_name: self.function_name@,
            arguments: kv_views(self.arguments@),
        }
    }
}

/// The views of a sequence of records.
pub open spec fn rec_views(rs: Seq<LogRecord>) -> Seq<RecordView> {
    rs.map_values(|r: LogRecord| r@)
}

/// Everything a conversion can fail with.  The first two carry the offending
/// line; `StackMismatch` carries the name the record closed (`expected`) and
/// the name that was open (`found`); `UnbalancedAtEof` carries the names of
/// the calls still open at end of input, outermost first.  `IOFailure` is
/// reserved for the surrounding program's read and write errors.
#[derive(Debug)]
pub enum Error {
    SignatureMismatch { line: String },
    MalformedCallSyntax { line: String },
    StackUnderflow,
    StackMismatch { expected: String, found: String },
    UnbalancedAtEof { remaining: Vec<String> },
    IOFailure { message: String },
}

/// The first `i` names each wrapped in single quotes, preceded by spaces.
pub open spec fn quoted_names(names: Seq<Seq<char>>, i: int) -> Seq<char>
    decreases i,
{
    if i <= 0 {
        Seq::empty()
    } else {
        quoted_names(names, i - 1) + " '"@ + names[i - 1] + "'"@
    }
}

/// The descriptive text of each error: the offending line, the conflicting
/// names, or the list of calls left open.
pub open spec fn spec_message(e: Error) -> Seq<char> {
    match e {
        Error::SignatureMismatch { line } => "EPOST_LOG signature is wrong in line \""@ + line@
            + "\""@,
        Error::MalformedCallSyntax { line } => "Incorrect format of function and arguments in line \""@
            + line@ + "\""@,
        Error::StackUnderflow => "Pop from empty stack!"@,
        Error::StackMismatch { expected, found } => "Mismatch found: Expected '"@ + expected@
            + "' but found '"@ + found@ + "'"@,
        Error::UnbalancedAtEof { remaining } => "Unfinished actions remain in the stack:"@
            + quoted_names(str_views(remaining@), remaining@.len() as int),
        Error::IOFailure { message } => "I/O failure: "@ + message@,
    }
}

impl Error {
    /// A short human-readable description, in place of `Display`.
    pub fn message(&self) -> (m: String)
        ensures
            m@ == spec_message(*self),
    {
        match self {
            Error::SignatureMismatch { line } => {
                let mut m = String::new();
                m.append("EPOST_LOG signature is wrong in line \"");
                m.append(line.as_str());
                m.append("\"");
                assert(m@ =~= spec_message(*self));
                m
            },
            Error::MalformedCallSyntax { line } => {
                let mut m = String::new();
                m.append("Incorrect format of function and arguments in line \"");
                m.append(line.as_str());
                m.append("\"");
                assert(m@ =~= spec_message(*self));
                m
            },
            Error::StackUnderflow => {
                let mut m = String::new();
                m.append("Pop from empty stack!");
                assert(m@ =~= spec_message(*self));
                m
            },
            Error::StackMismatch { expected, found } => {
                let mut m = String::new();
                m.append("Mismatch found: Expected '");
                m.append(expected.as_str());
                m.append("' but found '");
                m.append(found.as_str());
                m.append("'");
                assert(m@ =~= spec_message(*self));
                m
            },
            Error::UnbalancedAtEof { remaining } => {
                let mut m = String::new();
                m.append("Unfinished actions remain in the stack:");
                let mut i: usize = 0;
                while i < remaining.len()
                    invariant
                        i <= remaining.len(),
                        m@ == "Unfinished actions remain in the stack:"@ + quoted_names(
                            str_views(remaining@),
                            i as int,
                        ),
                    decreases remaining.len() - i,
                {
                    m.append(" '");
                    m.append(remaining[i].as_str());
                    m.append("'");
                    proof {
                        assert(str_views(remaining@)[i as int] == remaining@[i as int]@);
                        assert(m@ =~= "Unfinished actions remain in the stack:"@ + quoted_names(
                            str_views(remaining@),
                            i as int + 1,
                        ));
                    }
                    i = i + 1;
                }
                assert(m@ =~= spec_message(*self));
                m
            },
            Error::IOFailure { message } => {
                let mut m = String::new();
                m.append("I/O failure: ");
                m.append(message.as_str());
                assert(m@ =~= spec_message(*self));
                m
            },
        }
    }
}

} // verus!
