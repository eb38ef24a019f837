//! The text of what the search reports: a combination as a line of words,
//! a duration as hours, minutes and seconds, and a progress event as a line
//! of counts and durations.

use crate::catalog::Word;
use crate::progress::ProgressEvent;
use vstd::prelude::*;
use vstd::string::StringExecFns;

verus! {

/// Milliseconds in one second.
pub const SECOND: u128 = 1000;

/// Milliseconds in one minute.
pub const MINUTE: u128 = 60 * SECOND;

/// Milliseconds in one hour.
pub const HOUR: u128 = 60 * MINUTE;

/// Nanoseconds in one millisecond.
pub const NANOS_PER_MILLI: u128 = 1_000_000;

/// The character of a decimal digit.
pub open spec fn digit(value: nat) -> char {
    (48 + value) as char
}

/// The decimal digits of `value`, most significant first.
pub open spec fn decimal(value: nat) -> Seq<char>
    decreases value,
{
    if value < 10 {
        seq![digit(value)]
    } else {
        decimal(value / 10).push(digit(value % 10))
    }
}

/// `text` behind as many spaces as it takes to reach `width` characters.
pub open spec fn padded(text: Seq<char>, width: nat) -> Seq<char> {
    if text.len() >= width {
        text
    } else {
        Seq::new((width - text.len()) as nat, |i: int| ' ') + text
    }
}

/// The words at `combination`, separated by single spaces.
pub open spec fn joined(words: Seq<Word>, combination: Seq<usize>) -> Seq<char>
    decreases combination.len(),
{
    if combination.len() == 0 {
        Seq::empty()
    } else if combination.len() == 1 {
        words[combination[0] as int].value@
    } else {
        joined(words, combination.drop_last()) + " "@ + words[combination.last() as int].value@
    }
}

/// The line that reports a combination: its words in the order given,
/// separated by single spaces.
pub fn combination_line(words: &[Word], combination: &[usize]) -> (line: String)
    requires
        forall|i: int| 0 <= i < combination@.len() ==> (#[trigger] combination@[i]) < words@.len(),
    ensures
        line@ == joined(words@, combination@),
{
    let mut line = String::new();
    let mut at: usize = 0;
    while at < combination.len()
        invariant
            at <= combination@.len(),
            forall|i: int|
                0 <= i < combination@.len() ==> (#[trigger] combination@[i]) < words@.len(),
            line@ == joined(words@, combination@.take(at as int)),
        decreases combination@.len() - at,
    {
        if at > 0 {
            line.append(" ");
        }
        line.append(words[combination[at]].value.as_str());
        proof {
            let done = combination@.take(at + 1);
            assert(done.drop_last() =~= combination@.take(at as int));
            assert(done.last() == combination@[at as int]);
        }
        at += 1;
    }
    assert(combination@.take(at as int) =~= combination@);
    line
}

/// The text of one decimal digit.
fn digit_text(value: u8) -> (text: &'static str)
    requires
        value < 10,
    ensures
        text@ == seq![digit(value as nat)],
{
    proof {
        reveal_strlit("0");
        reveal_strlit("1");
        reveal_strlit("2");
        reveal_strlit("3");
        reveal_strlit("4");
        reveal_strlit("5");
        reveal_strlit("6");
        reveal_strlit("7");
        reveal_strlit("8");
        reveal_strlit("9");
    }
    let text = match value {
        0 => "0",
        1 => "1",
        2 => "2",
        3 => "3",
        4 => "4",
        5 => "5",
        6 => "6",
        7 => "7",
        8 => "8",
        _ => "9",
    };
    assert(text@ =~= seq![digit(value as nat)]);
    text
}

/// The digits of `digits`, as the text they spell.
spec fn spelled(digits: Seq<u8>) -> Seq<char> {
    Seq::new(digits.len(), |i: int| digit(digits[i] as nat))
}

/// The decimal digits of `value`, least significant first.
fn digits_of(value: u128) -> (digits: Vec<u8>)
    ensures
        spelled(digits@.reverse()) == decimal(value as nat),
        digits@.len() > 0,
        forall|i: int| 0 <= i < digits@.len() ==> (#[trigger] digits@[i]) < 10,
{
    let mut digits: Vec<u8> = Vec::new();
    let mut rest = value;
    while rest >= 10
        invariant
            decimal(value as nat) == decimal(rest as nat) + spelled(digits@.reverse()),
            forall|i: int| 0 <= i < digits@.len() ==> (#[trigger] digits@[i]) < 10,
        decreases rest,
    {
        let low = (rest % 10) as u8;
        proof {
            let before = digits@;
            assert(spelled(before.push(low).reverse()) =~= seq![digit(low as nat)] + spelled(
                before.reverse(),
            ));
            assert(decimal(rest as nat) + spelled(before.reverse()) =~= decimal(
                (rest / 10) as nat,
            ) + spelled(before.push(low).reverse()));
        }
        digits.push(low);
        rest = rest / 10;
    }
    let first = rest as u8;
    proof {
        let before = digits@;
        assert(spelled(before.push(first).reverse()) =~= seq![digit(first as nat)] + spelled(
            before.reverse(),
        ));
        assert(decimal(rest as nat) =~= seq![digit(first as nat)]);
    }
    digits.push(first);
    digits
}

/// Appends the decimal digits of `value` to `text`, behind as many spaces
/// as it takes to fill `width` characters.
fn push_padded(text: &mut String, value: u128, width: usize)
    ensures
        final(text)@ == old(text)@ + padded(decimal(value as nat), width as nat),
{
    let digits = digits_of(value);
    let ghost start = text@;
    let ghost turned = spelled(digits@.reverse());
    let mut filled = digits.len();
    while filled < width
        invariant
            digits@.len() <= filled,
            filled <= width || filled == digits@.len(),
            text@ == start + Seq::new((filled - digits@.len()) as nat, |i: int| ' '),
        decreases width - filled,
    {
        text.append(" ");
        proof {
            reveal_strlit(" ");
            let spaces = Seq::new((filled - digits@.len()) as nat, |i: int| ' ');
            let more = Seq::new((filled + 1 - digits@.len()) as nat, |i: int| ' ');
            assert(start + more =~= start + spaces + " "@);
        }
        filled += 1;
    }
    let ghost spaces = Seq::new((filled - digits@.len()) as nat, |i: int| ' ');
    let mut left = digits.len();
    while left > 0
        invariant
            left <= digits@.len(),
            turned == spelled(digits@.reverse()),
            forall|i: int| 0 <= i < digits@.len() ==> (#[trigger] digits@[i]) < 10,
            text@ == start + spaces + turned.take(digits@.len() - left),
        decreases left,
    {
        left -= 1;
        text.append(digit_text(digits[left]));
        proof {
            let done = digits@.len() - left;
            assert(turned.take(done) =~= turned.take(done - 1) + seq![
                digit(digits@[left as int] as nat),
            ]);
            assert(start + spaces + turned.take(done) =~= start + spaces + turned.take(done - 1)
                + seq![digit(digits@[left as int] as nat)]);
        }
    }
    proof {
        assert(turned.len() == digits@.len());
        assert(turned.take(digits@.len() as int) =~= turned);
        assert(padded(turned, width as nat) =~= spaces + turned);
        assert(text@ =~= start + padded(turned, width as nat));
    }
}

/// A duration in whole milliseconds, to be shown as hours, minutes and
/// seconds.
#[derive(Debug, Clone, Copy, PartialEq, Eq, Structural)]
pub struct PrettyDuration {
    pub millis: u128,
}

impl PrettyDuration {
    /// The whole hours.
    pub open spec fn hours(&self) -> nat {
        (self.millis / HOUR) as nat
    }

    /// The whole minutes beyond the hours.
    pub open spec fn minutes(&self) -> nat {
        ((self.millis % HOUR) / MINUTE) as nat
    }

    /// The whole seconds beyond the minutes.
    pub open spec fn seconds(&self) -> nat {
        ((self.millis % MINUTE) / SECOND) as nat
    }

    /// The text of the duration: hours, minutes and seconds, each at least
    /// two characters wide and followed by its unit and a space.
    pub open spec fn text(&self) -> Seq<char> {
        padded(decimal(self.hours()), 2) + "h "@ + padded(decimal(self.minutes()), 2) + "min "@
            + padded(decimal(self.seconds()), 2) + "s "@
    }

    /// The duration of `nanos` nanoseconds, rounded down to milliseconds.
    pub fn from_nanos(nanos: u128) -> (duration: PrettyDuration)
        ensures
            duration.millis == nanos / NANOS_PER_MILLI,
    {
        PrettyDuration { millis: nanos / NANOS_PER_MILLI }
    }

    /// The whole hours, the minutes beyond them and the seconds beyond
    /// those.
    pub fn parts(&self) -> (parts: (u128, u128, u128))
        ensures
            parts.0 == self.hours(),
            parts.1 == self.minutes(),
            parts.2 == self.seconds(),
            parts.1 < 60,
            parts.2 < 60,
    {
        let mut millis = self.millis;
        let hours = millis / HOUR;
        millis -= hours * HOUR;
        let minutes = millis / MINUTE;
        millis -= minutes * MINUTE;
        let seconds = millis / SECOND;
        (hours, minutes, seconds)
    }

    /// The duration as text.
    pub fn render(&self) -> (text: String)
        ensures
            text@ == self.text(),
    {
        let (hours, minutes, seconds) = self.parts();
        let mut text = String::new();
        push_padded(&mut text, hours, 2);
        text.append("h ");
        push_padded(&mut text, minutes, 2);
        text.append("min ");
        push_padded(&mut text, seconds, 2);
        text.append("s ");
        assert(text@ =~= self.text());
        text
    }
}

/// The text of a progress event: how many candidates of how many are
/// done, each at least four characters wide, the time spent, the two
/// estimates, and the running count.
pub open spec fn progress_text(event: ProgressEvent) -> Seq<char> {
    padded(decimal(event.processed as nat), 4) + " of "@ + padded(decimal(event.total as nat), 4)
        + " | Spent: "@ + PrettyDuration { millis: event.elapsed / NANOS_PER_MILLI }.text()
        + " | ETA Total: "@ + PrettyDuration { millis: event.eta_total / NANOS_PER_MILLI }.text()
        + " | ETA Left: "@ + PrettyDuration { millis: event.eta_left / NANOS_PER_MILLI }.text()
        + " | Checked "@ + decimal(event.count as nat)
}

/// The line that reports a progress event.
pub fn progress_line(event: &ProgressEvent) -> (line: String)
    ensures
        line@ == progress_text(*event),
{
    let mut line = String::new();
    push_padded(&mut line, event.processed as u128, 4);
    line.append(" of ");
    push_padded(&mut line, event.total as u128, 4);
    line.append(" | Spent: ");
    line.append(PrettyDuration::from_nanos(event.elapsed).render().as_str());
    line.append(" | ETA Total: ");
    line.append(PrettyDuration::from_nanos(event.eta_total).render().as_str());
    line.append(" | ETA Left: ");
    line.append(PrettyDuration::from_nanos(event.eta_left).render().as_str());
    line.append(" | Checked ");
    push_padded(&mut line, event.count as u128, 0);
    proof {
        let count = decimal(event.count as nat);
        assert(padded(count, 0) =~= count);
        assert(line@ =~= progress_text(*event));
    }
    line
}

} // verus!
