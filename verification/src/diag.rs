//! Diagnostics: source locations and fixed-capacity error objects.
//!
//! An [`Error`] is allocated once per top-level operation with a chosen
//! capacity. Its reason text is truncated so that, together with one
//! terminating byte, its UTF-8 encoding never takes more than that capacity.

use crate::text::{
    chars_of, lemma_fitting, push_decimal, push_truncated, decimal, truncated, utf8_len,
};
use vstd::prelude::*;

verus! {

/// The capacity of an error buffer where the caller has no wish of its own.
pub const DEFAULT_ERROR_CAPACITY: u16 = 512;

/// Code of an error object that holds no error.
pub const NO_ERROR: u16 = 0;

/// The source text is not valid text.
pub const ERR_MALFORMED_TEXT: u16 = 1;

/// A string literal has no closing quote.
pub const ERR_UNTERMINATED_STRING: u16 = 2;

/// A command has more tokens than the configured maximum.
pub const ERR_TOO_MANY_TOKENS: u16 = 3;

/// No dispatch entry matches the command and the language has no fallback.
pub const ERR_UNKNOWN_COMMAND: u16 = 4;

/// The dispatch entry that matches the command is flagged as removed.
pub const ERR_REMOVED_COMMAND: u16 = 5;

/// The version at hand does not satisfy the version asked for.
pub const ERR_INCOMPATIBLE_VERSION: u16 = 6;

/// A handler asked to continue at a command that the program does not hold.
pub const ERR_INVALID_JUMP: u16 = 7;

/// Code for failures to which a plugin assigns no code of its own.
pub const ERR_PLUGIN: u16 = 0xFFFF;

/// Where in the source something was found.
#[derive(Debug)]
pub struct SourceInfo {
    pub file_name: String,
    pub line: u16,
}

impl Clone for SourceInfo {
    fn clone(&self) -> (r: Self)
        ensures
            r == *self,
    {
        SourceInfo { file_name: self.file_name.clone(), line: self.line }
    }
}

impl SourceInfo {
    /// The location `line` of the file `file_name`.
    pub fn new(file_name: &str, line: u16) -> (r: Self)
        ensures
            r.file_name@ == file_name@,
            r.line == line,
    {
        SourceInfo { file_name: file_name.to_owned(), line }
    }

    /// The location of something that has none: no file name, line 0.
    pub fn unknown() -> (r: Self)
        ensures
            r.file_name@ == Seq::<char>::empty(),
            r.line == 0,
    {
        SourceInfo { file_name: String::new(), line: 0 }
    }

    pub fn file_name(&self) -> (r: &str)
        ensures
            r@ == self.file_name@,
    {
        self.file_name.as_str()
    }

    pub fn line(&self) -> (r: u16)
        ensures
            r == self.line,
    {
        self.line
    }
}

/// What an [`Error`] holds, as plain values.
pub struct ErrorView {
    pub extra_data: u64,
    pub file_name: Seq<char>,
    pub line: u16,
    pub error_code: u16,
    pub capacity: u16,
    pub reason: Seq<char>,
}

/// Bytes of reason text that a buffer of `capacity` bytes has room for, one
/// byte being kept for the terminator.
pub open spec fn room(capacity: u16) -> nat {
    if capacity == 0 {
        0
    } else {
        (capacity - 1) as nat
    }
}

/// An error object: a location, a numeric code (0 for no error), and a
/// reason text bounded by the capacity that the object was allocated with.
#[derive(Debug)]
pub struct Error {
    extra_data: u64,
    source_info: SourceInfo,
    error_code: u16,
    capacity: u16,
    reason: String,
}

impl View for Error {
    type V = ErrorView;

    closed spec fn view(&self) -> ErrorView {
        ErrorView {
            extra_data: self.extra_data,
            file_name: self.source_info.file_name@,
            line: self.source_info.line,
            error_code: self.error_code,
            capacity: self.capacity,
            reason: self.reason@,
        }
    }
}

/// Every `{}` of `format` replaced by the next of `args`, in order; a `{}`
/// for which no argument is left is replaced by nothing.
pub open spec fn expand(format: Seq<char>, args: Seq<Seq<char>>) -> Seq<char>
    decreases format.len(),
{
    if format.len() == 0 {
        Seq::empty()
    } else if format.len() >= 2 && format[0] == '{' && format[1] == '}' {
        if args.len() > 0 {
            args[0] + expand(format.skip(2), args.drop_first())
        } else {
            expand(format.skip(2), args)
        }
    } else {
        seq![format[0]] + expand(format.drop_first(), args)
    }
}

/// The texts of `args`.
pub open spec fn texts(args: Seq<String>) -> Seq<Seq<char>> {
    Seq::new(args.len(), |i: int| args[i]@)
}

/// How an error is shown to a user:
/// `in file {file}:{line}: error[{code}]: {reason}`.
pub open spec fn render_error(e: ErrorView) -> Seq<char> {
    "in file "@ + e.file_name + ":"@ + decimal(e.line as nat) + ": error["@ + decimal(
        e.error_code as nat,
    ) + "]: "@ + e.reason
}

/// The message that `format` and `args` make.
pub fn expand_format(format: &str, args: &Vec<String>) -> (message: Vec<char>)
    ensures
        message@ == expand(format@, texts(args@)),
{
    let fmt = chars_of(format);
    let mut message: Vec<char> = Vec::new();
    let mut i: usize = 0;
    let mut k: usize = 0;
    proof {
        assert(fmt@.skip(0) =~= fmt@);
        assert(texts(args@).skip(0) =~= texts(args@));
    }
    while i < fmt.len()
        invariant
            i <= fmt@.len(),
            k <= args@.len(),
            fmt@ == format@,
            expand(format@, texts(args@)) == message@ + expand(
                fmt@.skip(i as int),
                texts(args@).skip(k as int),
            ),
        decreases fmt@.len() - i,
    {
        let ghost rest = fmt@.skip(i as int);
        let ghost left = texts(args@).skip(k as int);
        if fmt[i] == '{' && i + 1 < fmt.len() && fmt[i + 1] == '}' {
            proof {
                assert(rest[0] == '{' && rest[1] == '}');
                assert(rest.skip(2) =~= fmt@.skip(i + 2));
            }
            if k < args.len() {
                let mut arg = chars_of(args[k].as_str());
                proof {
                    assert(left[0] == args@[k as int]@);
                    assert(left.drop_first() =~= texts(args@).skip(k + 1));
                    assert((message@ + arg@) + expand(fmt@.skip(i + 2), texts(args@).skip(k + 1))
                        =~= message@ + (arg@ + expand(
                        fmt@.skip(i + 2),
                        texts(args@).skip(k + 1),
                    )));
                }
                message.append(&mut arg);
                k += 1;
            } else {
                assert(left.len() == 0);
            }
            i += 2;
        } else {
            proof {
                assert(rest[0] == fmt@[i as int]);
                if rest.len() >= 2 {
                    assert(rest[1] == fmt@[i + 1]);
                }
                assert(rest.drop_first() =~= fmt@.skip(i + 1));
                assert(message@.push(fmt@[i as int]) + expand(fmt@.skip(i + 1), left)
                    =~= message@ + (seq![fmt@[i as int]] + expand(fmt@.skip(i + 1), left)));
            }
            message.push(fmt[i]);
            i += 1;
        }
    }
    proof {
        assert(fmt@.skip(i as int).len() == 0);
        assert(message@ + Seq::<char>::empty() =~= message@);
    }
    message
}

/// A zeroed error object with room for `capacity` bytes of reason text,
/// terminator included.
pub fn error_buffer(capacity: u16) -> (e: Error)
    ensures
        e@ == (ErrorView {
            extra_data: 0,
            file_name: Seq::empty(),
            line: 0,
            error_code: NO_ERROR,
            capacity,
            reason: Seq::empty(),
        }),
{
    proof {
        lemma_fitting(Seq::<char>::empty(), room(capacity));
        assert(truncated(Seq::<char>::empty(), room(capacity)) =~= Seq::<char>::empty());
    }
    Error {
        extra_data: 0,
        source_info: SourceInfo::unknown(),
        error_code: NO_ERROR,
        capacity,
        reason: String::new(),
    }
}

/// Writes an error into `error`: the code, the location, the plugin's datum,
/// and as reason the message that `format` and `args` make, truncated to what
/// the capacity of `error` has room for.
pub fn format_error(
    error: &mut Error,
    code: u16,
    source_info: SourceInfo,
    extra_data: u64,
    format: &str,
    args: &Vec<String>,
)
    ensures
        final(error)@ == (ErrorView {
            extra_data,
            file_name: source_info.file_name@,
            line: source_info.line,
            error_code: code,
            capacity: old(error)@.capacity,
            reason: truncated(expand(format@, texts(args@)), room(old(error)@.capacity)),
        }),
{
    let message = expand_format(format, args);
    let capacity = error.capacity;
    let budget: usize = if capacity == 0 {
        0
    } else {
        (capacity - 1) as usize
    };
    let mut reason = String::new();
    push_truncated(&mut reason, &message, budget);
    proof {
        lemma_fitting(message@, room(capacity));
        assert(Seq::<char>::empty() + truncated(message@, room(capacity)) =~= truncated(
            message@,
            room(capacity),
        ));
    }
    *error = Error { extra_data, source_info, error_code: code, capacity, reason };
}

/// Writes into `error` the failure of a plugin that names no code of its
/// own: the code [`ERR_PLUGIN`], the location, and as reason the message as
/// it stands, truncated to what the capacity of `error` has room for.
pub fn report_plugin_failure(error: &mut Error, source_info: SourceInfo, message: &str)
    ensures
        final(error)@ == (ErrorView {
            extra_data: 0,
            file_name: source_info.file_name@,
            line: source_info.line,
            error_code: ERR_PLUGIN,
            capacity: old(error)@.capacity,
            reason: truncated(message@, room(old(error)@.capacity)),
        }),
{
    let mut args: Vec<String> = Vec::new();
    args.push(message.to_owned());
    proof {
        reveal_strlit("{}");
        let format = "{}"@;
        assert(format.len() == 2 && format[0] == '{' && format[1] == '}');
        assert(texts(args@) =~= seq![message@]);
        assert(format.skip(2) =~= Seq::<char>::empty());
        assert(texts(args@).drop_first() =~= Seq::<Seq<char>>::empty());
        assert(expand(format, texts(args@)) =~= message@) by {
            assert(expand(format.skip(2), texts(args@).drop_first()) =~= Seq::<char>::empty());
        }
    }
    format_error(error, ERR_PLUGIN, source_info, 0, "{}", &args);
}

/// Whether `error` holds an error.
pub fn is_error(error: &Error) -> (b: bool)
    ensures
        b == (error@.error_code != NO_ERROR),
{
    error.error_code != NO_ERROR
}

impl Error {
    #[verifier::type_invariant]
    spec fn fits(self) -> bool {
        utf8_len(self.reason@) <= room(self.capacity)
    }

    /// The location that the error points at.
    pub fn source_info(&self) -> (r: SourceInfo)
        ensures
            r.file_name@ == self@.file_name,
            r.line == self@.line,
    {
        self.source_info.clone()
    }

    /// The numeric code; 0 means no error.
    pub fn error_code(&self) -> (r: u16)
        ensures
            r == self@.error_code,
    {
        self.error_code
    }

    /// The capacity that the object was allocated with.
    pub fn capacity(&self) -> (r: u16)
        ensures
            r == self@.capacity,
    {
        self.capacity
    }

    /// The datum that the reporting party attached.
    pub fn extra_data(&self) -> (r: u64)
        ensures
            r == self@.extra_data,
    {
        self.extra_data
    }

    /// The reason text. With its terminator it takes no more bytes than the
    /// capacity.
    pub fn reason(&self) -> (r: &str)
        ensures
            r@ == self@.reason,
            utf8_len(r@) <= room(self@.capacity),
    {
        proof {
            use_type_invariant(self);
        }
        self.reason.as_str()
    }

    /// The error as shown to a user.
    pub fn to_text(&self) -> (r: String)
        ensures
            r@ == render_error(self@),
    {
        let mut r = String::new();
        r.append("in file ");
        r.append(self.source_info.file_name.as_str());
        r.append(":");
        push_decimal(&mut r, self.source_info.line);
        r.append(": error[");
        push_decimal(&mut r, self.error_code);
        r.append("]: ");
        r.append(self.reason.as_str());
        assert(r@ =~= render_error(self@));
        r
    }
}

} // verus!
