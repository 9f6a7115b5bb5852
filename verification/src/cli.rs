//! Reading a command line: splitting it into arguments, and reading the
//! date and time of a schedule.
use vstd::prelude::*;
use chrono::Datelike;
use chrono::Timelike;

verus! {

/// `String::push` appends one character at the end.
pub assume_specification[ String::push ](s: &mut String, ch: char)
    ensures
        final(s)@ == old(s)@.push(ch),
;

/// Where a scan of a command line stands: the arguments that are complete,
/// the characters of the argument that is being read, and whether the scan
/// is inside double quotes.
#[verifier::ext_equal]
pub struct ArgScan {
    pub args: Seq<Seq<char>>,
    pub current: Seq<char>,
    pub in_quotes: bool,
}

impl ArgScan {
    /// The scan before the first character.
    pub open spec fn start() -> ArgScan {
        ArgScan { args: Seq::empty(), current: Seq::empty(), in_quotes: false }
    }

    /// The scan after one more character.  A double quote switches quoting
    /// on or off and is dropped; a space outside quotes ends the argument
    /// being read, if it has any character; every other character joins
    /// the argument being read.
    pub open spec fn step(self, c: char) -> ArgScan {
        if c == '"' {
            ArgScan { in_quotes: !self.in_quotes, ..self }
        } else if c == ' ' && !self.in_quotes {
            if self.current.len() > 0 {
                ArgScan { args: self.args.push(self.current), current: Seq::empty(), ..self }
            } else {
                self
            }
        } else {
            ArgScan { current: self.current.push(c), ..self }
        }
    }

    /// The scan after the characters of `input`.
    pub open spec fn after(input: Seq<char>) -> ArgScan
        decreases input.len(),
    {
        if input.len() == 0 {
            ArgScan::start()
        } else {
            ArgScan::after(input.drop_last()).step(input.last())
        }
    }

    /// The arguments at the end of the input: the complete ones, and the
    /// one being read if it has any character.
    pub open spec fn finish(self) -> Seq<Seq<char>> {
        if self.current.len() > 0 {
            self.args.push(self.current)
        } else {
            self.args
        }
    }
}

/// The arguments of a command line.
pub open spec fn split_args(input: Seq<char>) -> Seq<Seq<char>> {
    ArgScan::after(input).finish()
}

impl ArgScan {
    /// What holds at every point of a scan: no complete argument is empty,
    /// and no double quote is kept.
    pub open spec fn tidy(self) -> bool {
        &&& forall|i: int| 0 <= i < self.args.len() ==> (#[trigger] self.args[i]).len() > 0
        &&& forall|i: int| 0 <= i < self.args.len() ==> !(#[trigger] self.args[i]).contains('"')
        &&& !self.current.contains('"')
    }

    /// Whether neither a complete argument nor the one being read holds a
    /// space.
    pub open spec fn spaceless(self) -> bool {
        &&& forall|i: int| 0 <= i < self.args.len() ==> !(#[trigger] self.args[i]).contains(' ')
        &&& !self.current.contains(' ')
    }
}

/// A step keeps a scan tidy, and outside quotes it keeps it free of spaces.
proof fn lemma_step(scan: ArgScan, c: char)
    requires
        scan.tidy(),
    ensures
        scan.step(c).tidy(),
        scan.spaceless() && !scan.in_quotes && c != '"' ==> scan.step(c).spaceless()
            && !scan.step(c).in_quotes,
{
    let next = scan.step(c);
    if c == '"' {
    } else if c == ' ' && !scan.in_quotes {
        if scan.current.len() > 0 {
            assert forall|i: int| 0 <= i < next.args.len() implies (#[trigger] next.args[i]).len() > 0
                && !next.args[i].contains('"') by {
                if i < scan.args.len() {
                    assert(next.args[i] == scan.args[i]);
                }
            }
            if scan.spaceless() {
                assert forall|i: int| 0 <= i < next.args.len() implies !(#[trigger] next.args[i]).contains(' ') by {
                    if i < scan.args.len() {
                        assert(next.args[i] == scan.args[i]);
                    }
                }
            }
        }
    } else {
        assert forall|k: int| 0 <= k < next.current.len() implies next.current[k] != '"' by {
            if k < scan.current.len() {
                assert(scan.current[k] == next.current[k]);
                assert(scan.current.contains(scan.current[k]));
            }
        }
        if scan.spaceless() && !scan.in_quotes {
            assert forall|k: int| 0 <= k < next.current.len() implies next.current[k] != ' ' by {
                if k < scan.current.len() {
                    assert(scan.current[k] == next.current[k]);
                    assert(scan.current.contains(scan.current[k]));
                }
            }
        }
    }
}

/// Every scan is tidy; the scan of a text without double quotes ends
/// outside quotes and free of spaces.
proof fn lemma_scan(input: Seq<char>)
    ensures
        ArgScan::after(input).tidy(),
        !input.contains('"') ==> ArgScan::after(input).spaceless() && !ArgScan::after(input).in_quotes,
    decreases input.len(),
{
    if input.len() > 0 {
        lemma_scan(input.drop_last());
        lemma_step(ArgScan::after(input.drop_last()), input.last());
        if !input.contains('"') {
            assert(input.last() == input[input.len() - 1]);
            assert forall|k: int| 0 <= k < input.drop_last().len() implies input.drop_last()[k] != '"' by {
                assert(input.drop_last()[k] == input[k]);
            }
        }
    }
}

/// No argument is empty and none holds a double quote; in a text without
/// double quotes no argument holds a space.
pub proof fn lemma_split_args(input: Seq<char>)
    ensures
        forall|i: int| 0 <= i < split_args(input).len() ==> (#[trigger] split_args(input)[i]).len() > 0,
        forall|i: int| 0 <= i < split_args(input).len() ==> !(#[trigger] split_args(input)[i]).contains('"'),
        !input.contains('"') ==> forall|i: int|
            0 <= i < split_args(input).len() ==> !(#[trigger] split_args(input)[i]).contains(' '),
{
    lemma_scan(input);
    let scan = ArgScan::after(input);
    let args = split_args(input);
    assert forall|i: int| 0 <= i < args.len() implies (#[trigger] args[i]).len() > 0 && !args[i].contains('"') by {
        if i < scan.args.len() {
            assert(args[i] == scan.args[i]);
        }
    }
    if !input.contains('"') {
        assert forall|i: int| 0 <= i < args.len() implies !(#[trigger] args[i]).contains(' ') by {
            if i < scan.args.len() {
                assert(args[i] == scan.args[i]);
            }
        }
    }
}

/// A text with neither a space nor a double quote is one argument, and the
/// empty text is none.
pub proof fn lemma_single_arg(input: Seq<char>)
    requires
        !input.contains(' '),
        !input.contains('"'),
    ensures
        split_args(input) == if input.len() > 0 {
            seq![input]
        } else {
            Seq::<Seq<char>>::empty()
        },
{
    lemma_plain_scan(input);
    if input.len() > 0 {
        assert(split_args(input) =~= seq![input]);
    }
}

/// The scan of a text with neither a space nor a double quote has read
/// the whole text into one argument.
proof fn lemma_plain_scan(input: Seq<char>)
    requires
        !input.contains(' '),
        !input.contains('"'),
    ensures
        ArgScan::after(input) == (ArgScan { args: Seq::empty(), current: input, in_quotes: false }),
    decreases input.len(),
{
    if input.len() > 0 {
        let rest = input.drop_last();
        assert(input.contains(input[input.len() - 1]));
        assert forall|k: int| 0 <= k < rest.len() implies rest[k] != ' ' && rest[k] != '"' by {
            assert(rest[k] == input[k]);
            assert(input.contains(input[k]));
        }
        lemma_plain_scan(rest);
        assert(rest.push(input.last()) =~= input);
    } else {
        assert(input =~= Seq::<char>::empty());
    }
}

/// Splits a command line into its arguments at the spaces outside double
/// quotes.  The quotes themselves are dropped, and no argument is empty.
pub fn parse_args(input: &str) -> (args: Vec<String>)
    ensures
        args.deep_view() == split_args(input@),
{
    let mut args: Vec<String> = Vec::new();
    let mut current_arg = String::new();
    let mut in_quotes = false;
    let ghost mut scan = ArgScan::start();
    assert(input@.take(0) =~= Seq::<char>::empty());
    for c in it: input.chars()
        invariant
            it.seq() == input@,
            scan == ArgScan::after(input@.take(it.index())),
            scan.args == args.deep_view(),
            scan.current == current_arg@,
            scan.in_quotes == in_quotes,
    {
        proof {
            let upto = input@.take(it.index() + 1);
            assert(upto.drop_last() =~= input@.take(it.index()));
            assert(upto.last() == c);
            scan = scan.step(c);
        }
        if c == '"' {
            in_quotes = !in_quotes;
        } else if c == ' ' && !in_quotes {
            if !current_arg.as_str().is_empty() {
                let ghost done = args.deep_view();
                let arg = current_arg;
                assert(done.push(arg@) =~= scan.args);
                args.push(arg);
                current_arg = String::new();
            }
        } else {
            current_arg.push(c);
        }
    }
    assert(input@.take(input@.len() as int) =~= input@);
    if !current_arg.as_str().is_empty() {
        let ghost done = args.deep_view();
        assert(done.push(current_arg@) =~= scan.finish());
        args.push(current_arg);
    }
    args
}

/// A day of the calendar.
#[derive(Debug, Clone, Copy, PartialEq, Eq, Structural)]
pub struct CivilDate {
    pub year: i32,
    pub month: u32,
    pub day: u32,
}

/// A day and a time of day as a clock on the wall shows them, before any
/// time zone is applied.
#[derive(Debug, Clone, Copy, PartialEq, Eq, Structural)]
pub struct CivilTime {
    pub date: CivilDate,
    pub hour: u32,
    pub minute: u32,
    pub second: u32,
}

/// Why a text is no date.
#[derive(Debug, Clone, Copy, PartialEq, Eq, Structural)]
pub enum DateTimeError {
    /// The text has neither the form `DD/MM/YYYY HH:MM` nor `DD/MM/YYYY`.
    InvalidFormat,
}

/// The hour of the day that a date without a time stands for.
pub const DEFAULT_HOUR: u32 = 9;

/// The format of a date with a time, `DD/MM/YYYY HH:MM`, in chrono's
/// notation.
pub const DAY_AND_TIME_FORMAT: &'static str = "%d/%m/%Y %H:%M";

/// The format of a date without a time, `DD/MM/YYYY`, in chrono's notation.
pub const DAY_FORMAT: &'static str = "%d/%m/%Y";

/// What `chrono::NaiveDateTime::parse_from_str` reads from `text` under
/// `format`, down to the second, and `None` where it reports an error.
pub uninterp spec fn day_and_time_read(text: Seq<char>, format: Seq<char>) -> Option<CivilTime>;

/// What `chrono::NaiveDate::parse_from_str` reads from `text` under
/// `format`, and `None` where it reports an error.
pub uninterp spec fn day_read(text: Seq<char>, format: Seq<char>) -> Option<CivilDate>;

/// Reads a day and a time with `chrono::NaiveDateTime::parse_from_str`.
/// The call depends on the text and the format alone; the contract gives
/// its result a name and says nothing else of it.  It is asked for the one
/// format of the library for which chrono's reader is known to return on
/// every text; that format holds no fraction of a second, so the fields
/// down to the second are all that is read.
#[verifier::external_body]
fn read_day_and_time(text: &str, format: &str) -> (r: Option<CivilTime>)
    requires
        format@ == DAY_AND_TIME_FORMAT@,
    ensures
        r == day_and_time_read(text@, format@),
{
    match chrono::NaiveDateTime::parse_from_str(text, format) {
        Ok(dt) => Some(
            CivilTime {
                date: CivilDate { year: dt.year(), month: dt.month(), day: dt.day() },
                hour: dt.hour(),
                minute: dt.minute(),
                second: dt.second(),
            },
        ),
        Err(_) => None,
    }
}

/// Reads a day with `chrono::NaiveDate::parse_from_str`.  The call depends
/// on the text and the format alone; the contract gives its result a name
/// and says nothing else of it.  It is asked for the one format of the
/// library for which chrono's reader is known to return on every text.
#[verifier::external_body]
fn read_day(text: &str, format: &str) -> (r: Option<CivilDate>)
    requires
        format@ == DAY_FORMAT@,
    ensures
        r == day_read(text@, format@),
{
    match chrono::NaiveDate::parse_from_str(text, format) {
        Ok(date) => Some(CivilDate { year: date.year(), month: date.month(), day: date.day() }),
        Err(_) => None,
    }
}

impl CivilDate {
    /// The day at the given full hour.
    pub open spec fn at_hour(self, hour: u32) -> CivilTime {
        CivilTime { date: self, hour, minute: 0, second: 0 }
    }
}

/// The date and time that a text stands for, given what it reads as with a
/// time and what it reads as without one: the reading with a time where
/// there is one, else the day at the default hour, else an error.
pub open spec fn chosen_time(with_time: Option<CivilTime>, day_only: Option<CivilDate>) -> Result<
    CivilTime,
    DateTimeError,
> {
    match with_time {
        Some(time) => Ok(time),
        None => match day_only {
            Some(date) => Ok(date.at_hour(DEFAULT_HOUR)),
            None => Err(DateTimeError::InvalidFormat),
        },
    }
}

/// Chooses between the two readings of a text.
pub fn choose_time(with_time: Option<CivilTime>, day_only: Option<CivilDate>) -> (r: Result<
    CivilTime,
    DateTimeError,
>)
    ensures
        r == chosen_time(with_time, day_only),
{
    match with_time {
        Some(time) => Ok(time),
        None => match day_only {
            Some(date) => Ok(CivilTime { date, hour: DEFAULT_HOUR, minute: 0, second: 0 }),
            None => Err(DateTimeError::InvalidFormat),
        },
    }
}

/// Reads a date of the form `DD/MM/YYYY HH:MM`, or of the form `DD/MM/YYYY`,
/// which stands for nine o'clock of that day.
pub fn parse_datetime(text: &str) -> (r: Result<CivilTime, DateTimeError>)
    ensures
        r == chosen_time(
            day_and_time_read(text@, DAY_AND_TIME_FORMAT@),
            day_read(text@, DAY_FORMAT@),
        ),
{
    let with_time = read_day_and_time(text, DAY_AND_TIME_FORMAT);
    if with_time.is_some() {
        choose_time(with_time, None)
    } else {
        choose_time(None, read_day(text, DAY_FORMAT))
    }
}

impl DateTimeError {
    /// The message shown for the error.
    pub fn message(&self) -> (text: String)
        ensures
            text@ == "Formato de fecha inválido. Use: DD/MM/YYYY HH:MM o DD/MM/YYYY"@,
    {
        "Formato de fecha inválido. Use: DD/MM/YYYY HH:MM o DD/MM/YYYY".to_owned()
    }
}

} // verus!
