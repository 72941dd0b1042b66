//! Choosing a device to play on, and feeding it with samples.

use crate::audio::context::DeviceInfo;
use vstd::prelude::*;

verus! {

/// Why there is no device to play on.
#[derive(Debug, PartialEq, Eq, Structural, Clone, Copy)]
pub enum ChoiceError {
    /// There are no devices.
    NoDevices,
    /// What was typed is no number.
    NotANumber,
    /// There is no device of that number.
    OutOfRange,
}

/// The last default device, or the first device where none is the default.
pub open spec fn is_default_choice<Dir>(devices: Seq<DeviceInfo<Dir>>, idx: int) -> bool {
    if exists|i: int| 0 <= i < devices.len() && #[trigger] devices[i].is_default {
        &&& 0 <= idx < devices.len()
        &&& devices[idx].is_default
        &&& forall|i: int| idx < i < devices.len() ==> !#[trigger] devices[i].is_default
    } else {
        idx == 0
    }
}

/// The device to take where none is chosen.
pub fn default_choice<Dir>(devices: &Vec<DeviceInfo<Dir>>) -> (idx: usize)
    ensures
        is_default_choice(devices@, idx as int),
        devices@.len() > 0 ==> idx < devices@.len(),
        forall|i: int| idx < i < devices@.len() ==> !#[trigger] devices@[i].is_default,
        idx > 0 ==> devices@[idx as int].is_default,
{
    let mut default_idx: usize = 0;
    let mut i: usize = 0;
    while i < devices.len()
        invariant
            i <= devices@.len(),
            is_default_choice(devices@.take(i as int), default_idx as int),
        decreases devices@.len() - i,
    {
        let ghost seen = devices@.take(i as int);
        let ghost next = devices@.take(i + 1);
        assert(forall|j: int| 0 <= j < i ==> seen[j] == #[trigger] next[j]);
        assert(next[i as int] == devices@[i as int]);
        if devices[i].is_default {
            default_idx = i;
            assert(next[i as int].is_default);
        } else {
            proof {
                if exists|j: int| 0 <= j < seen.len() && #[trigger] seen[j].is_default {
                    let j = choose|j: int| 0 <= j < seen.len() && #[trigger] seen[j].is_default;
                    assert(next[j].is_default);
                }
            }
        }
        i = i + 1;
    }
    assert(devices@.take(i as int) =~= devices@);
    default_idx
}

/// The characters that have the property White_Space in Unicode.
pub open spec fn is_white_space(c: char) -> bool {
    let code = c as u32;
    ||| 0x9 <= code <= 0xD
    ||| code == 0x20
    ||| code == 0x85
    ||| code == 0xA0
    ||| code == 0x1680
    ||| 0x2000 <= code <= 0x200A
    ||| 0x2028 <= code <= 0x2029
    ||| code == 0x202F
    ||| code == 0x205F
    ||| code == 0x3000
}

/// A text without the white space at its start and its end.
pub open spec fn trimmed(text: Seq<char>) -> Seq<char>
    decreases text.len(),
{
    if text.len() > 0 && is_white_space(text.first()) {
        trimmed(text.drop_first())
    } else if text.len() > 0 && is_white_space(text.last()) {
        trimmed(text.drop_last())
    } else {
        text
    }
}

/// Calls [`str::trim`]. It cuts off what has the property White_Space at the
/// start and the end of a text, and nothing else.
#[verifier::external_body]
fn trim(text: &str) -> (rest: &str)
    ensures
        rest@ == trimmed(text@),
{
    text.trim()
}

/// Whether a text is made of decimal digits, at least one.
pub open spec fn is_decimal(text: Seq<char>) -> bool {
    &&& text.len() > 0
    &&& forall|i: int| 0 <= i < text.len() ==> '0' <= #[trigger] text[i] <= '9'
}

/// The number that decimal digits stand for.
pub open spec fn decimal_value(digits: Seq<char>) -> nat
    decreases digits.len(),
{
    if digits.len() == 0 {
        0
    } else {
        10 * decimal_value(digits.drop_last()) + (digits.last() as nat - '0' as nat) as nat
    }
}

/// The number that a text stands for: decimal digits, with or without a plus
/// sign before them.
pub open spec fn number_in(text: Seq<char>) -> Option<nat> {
    let digits = if text.len() > 0 && text[0] == '+' {
        text.skip(1)
    } else {
        text
    };
    if is_decimal(digits) {
        Some(decimal_value(digits))
    } else {
        None
    }
}

/// Calls [`str::parse`] for `usize`. It takes decimal digits, with or without a
/// plus sign before them, if the number fits.
#[verifier::external_body]
fn parse_usize(text: &str) -> (n: Option<usize>)
    ensures
        n == match number_in(text@) {
            Some(v) => if v <= usize::MAX {
                Some(v as usize)
            } else {
                None
            },
            None => None,
        },
{
    text.parse::<usize>().ok()
}

/// A number is read digit by digit, with or without a plus sign before it: one
/// more digit makes ten times as much and that digit.
pub proof fn law_numbers_are_decimal(digits: Seq<char>, digit: char)
    requires
        forall|i: int| 0 <= i < digits.len() ==> '0' <= #[trigger] digits[i] <= '9',
        '0' <= digit <= '9',
    ensures
        ({
            let before = if digits.len() == 0 {
                0nat
            } else {
                number_in(digits)->0
            };
            let value = 10 * before + (digit as nat - '0' as nat);
            &&& number_in(digits.push(digit)) is Some
            &&& number_in(digits.push(digit))->0 == value
            &&& number_in(seq!['+'] + digits.push(digit)) is Some
            &&& number_in(seq!['+'] + digits.push(digit))->0 == value
        }),
{
    let more = digits.push(digit);
    assert(more.drop_last() =~= digits);
    assert(more.last() == digit);
    assert(decimal_value(Seq::<char>::empty()) == 0);
    assert((seq!['+'] + more)[0] == '+');
    assert((seq!['+'] + more).skip(1) =~= more);
    assert(is_decimal(more));
    assert('0' <= more[0] <= '9');
    if digits.len() > 0 {
        assert('0' <= digits[0] <= '9');
        assert(number_in(digits) == Some(decimal_value(digits)));
    } else {
        assert(digits =~= Seq::<char>::empty());
    }
}

/// What is cut off is white space, and all of it at the start and at the end.
pub proof fn law_trimmed(front: Seq<char>, core: Seq<char>, back: Seq<char>)
    requires
        forall|i: int| 0 <= i < front.len() ==> is_white_space(#[trigger] front[i]),
        forall|i: int| 0 <= i < back.len() ==> is_white_space(#[trigger] back[i]),
        core.len() > 0 ==> !is_white_space(core.first()) && !is_white_space(core.last()),
    ensures
        trimmed(front + core + back) == core,
    decreases front.len() + back.len(),
{
    let text = front + core + back;
    if front.len() > 0 {
        assert(text.first() == front[0]);
        assert(text.drop_first() =~= front.drop_first() + core + back);
        law_trimmed(front.drop_first(), core, back);
    } else if core.len() == 0 && back.len() > 0 {
        assert(text.first() == back[0]);
        assert(text.drop_first() =~= front + core + back.drop_first());
        law_trimmed(front, core, back.drop_first());
    } else if back.len() > 0 {
        assert(text.first() == core.first());
        assert(text.last() == back.last());
        assert(is_white_space(back[back.len() - 1]));
        assert(text.drop_last() =~= front + core + back.drop_last());
        law_trimmed(front, core, back.drop_last());
    } else {
        assert(text =~= core);
    }
}

/// What a choice among `count` devices comes to: nothing for the default, or
/// else the number of a device.
pub open spec fn choice_outcome(text: Seq<char>, default_idx: usize, count: nat) -> Result<
    usize,
    ChoiceError,
> {
    if text.len() == 0 {
        if default_idx < count {
            Ok(default_idx)
        } else {
            Err(ChoiceError::OutOfRange)
        }
    } else {
        match number_in(text) {
            Some(n) => if n > usize::MAX {
                Err(ChoiceError::NotANumber)
            } else if n < count {
                Ok(n as usize)
            } else {
                Err(ChoiceError::OutOfRange)
            },
            None => Err(ChoiceError::NotANumber),
        }
    }
}

/// Resolves a choice that has no white space around it.
pub fn resolve_choice(text: &str, default_idx: usize, count: usize) -> (res: Result<
    usize,
    ChoiceError,
>)
    ensures
        res == choice_outcome(text@, default_idx, count as nat),
        text@.len() == 0 ==> res == if default_idx < count {
            Ok::<usize, ChoiceError>(default_idx)
        } else {
            Err(ChoiceError::OutOfRange)
        },
        text@.len() > 0 ==> match number_in(text@) {
            Some(n) => if n < count {
                res == Ok::<usize, ChoiceError>(n as usize)
            } else if n <= usize::MAX {
                res == Err::<usize, ChoiceError>(ChoiceError::OutOfRange)
            } else {
                res == Err::<usize, ChoiceError>(ChoiceError::NotANumber)
            },
            None => res == Err::<usize, ChoiceError>(ChoiceError::NotANumber),
        },
{
    let choice: usize = if text.is_empty() {
        default_idx
    } else {
        match parse_usize(text) {
            Some(n) => n,
            None => {
                return Err(ChoiceError::NotANumber);
            },
        }
    };
    if choice >= count {
        Err(ChoiceError::OutOfRange)
    } else {
        Ok(choice)
    }
}

/// The device that was chosen by typing `input`.
pub fn choose_device<Dir>(devices: &Vec<DeviceInfo<Dir>>, input: &str) -> (res: Result<
    usize,
    ChoiceError,
>)
    ensures
        devices@.len() == 0 ==> res == Err::<usize, ChoiceError>(ChoiceError::NoDevices),
        devices@.len() > 0 ==> exists|default_idx: usize|
            #[trigger] is_default_choice(devices@, default_idx as int) && res == choice_outcome(
                trimmed(input@),
                default_idx,
                devices@.len(),
            ),
        devices@.len() > 0 && input@.len() == 0 ==> (res matches Ok(idx) && is_default_choice(
            devices@,
            idx as int,
        )),
        res matches Ok(idx) ==> idx < devices@.len(),
{
    if devices.len() == 0 {
        return Err(ChoiceError::NoDevices);
    }
    let default_idx = default_choice(devices);
    resolve_choice(trim(input), default_idx, devices.len())
}

/// What a source of samples hands out when asked for the next one.
pub enum Next<T, E> {
    /// A sample.
    Sample(T),
    /// There are no more.
    End,
    /// It failed.
    Failed(E),
}

/// What becomes of it.
pub struct Fed<T, E> {
    /// The sample to play.
    pub sample: Option<T>,
    /// How playing has ended.
    pub report: Option<Result<(), E>>,
}

/// Feeds samples to a device until their source ends or fails.
pub struct Feed {
    running: bool,
}

/// What becomes of what the source hands out, and whether the feed still runs.
pub open spec fn fed<T, E>(running: bool, next: Next<T, E>) -> (Fed<T, E>, bool) {
    match next {
        Next::Sample(v) => (Fed { sample: Some(v), report: None }, running),
        Next::End => (
            Fed { sample: None, report: if running { Some(Ok(())) } else { None } },
            false,
        ),
        Next::Failed(e) => (
            Fed { sample: None, report: if running { Some(Err(e)) } else { None } },
            false,
        ),
    }
}

impl Feed {
    /// Whether the source has neither ended nor failed.
    pub closed spec fn running(&self) -> bool {
        self.running
    }

    /// A feed that nothing has been handed to.
    pub fn new() -> (feed: Self)
        ensures
            feed.running(),
    {
        Feed { running: true }
    }

    /// Whether the device is to be fed at all.
    pub fn is_running(&self) -> (res: bool)
        ensures
            res == self.running(),
    {
        self.running
    }

    /// Takes what the source hands out for the next sample of the device.
    pub fn step<T, E>(&mut self, next: Next<T, E>) -> (res: Fed<T, E>)
        ensures
            (res, final(self).running()) == fed(old(self).running(), next),
            match next {
                Next::Sample(v) => {
                    &&& res.sample == Some(v)
                    &&& res.report is None
                    &&& final(self).running() == old(self).running()
                },
                Next::End => {
                    &&& res.sample is None
                    &&& res.report == if old(self).running() {
                        Some(Ok::<(), E>(()))
                    } else {
                        None
                    }
                    &&& !final(self).running()
                },
                Next::Failed(e) => {
                    &&& res.sample is None
                    &&& res.report == if old(self).running() {
                        Some(Err::<(), E>(e))
                    } else {
                        None
                    }
                    &&& !final(self).running()
                },
            },
    {
        match next {
            Next::Sample(v) => Fed { sample: Some(v), report: None },
            Next::End => {
                let report = if self.running {
                    Some(Ok(()))
                } else {
                    None
                };
                self.running = false;
                Fed { sample: None, report }
            },
            Next::Failed(e) => {
                let report = if self.running {
                    Some(Err(e))
                } else {
                    None
                };
                self.running = false;
                Fed { sample: None, report }
            },
        }
    }
}

/// The reports that come of what a source hands out, one after the other.
pub open spec fn reports<T, E>(running: bool, nexts: Seq<Next<T, E>>) -> Seq<Result<(), E>>
    decreases nexts.len(),
{
    if nexts.len() == 0 {
        Seq::empty()
    } else {
        let (res, still) = fed(running, nexts[0]);
        let rest = reports(still, nexts.skip(1));
        match res.report {
            Some(r) => seq![r] + rest,
            None => rest,
        }
    }
}

/// How playing has ended is reported once and no more: of the first time that
/// the source ended or failed.
pub proof fn law_end_is_reported_once<T, E>(nexts: Seq<Next<T, E>>, first: int)
    requires
        0 <= first < nexts.len(),
        nexts[first] !is Sample,
        forall|i: int| 0 <= i < first ==> #[trigger] nexts[i] is Sample,
    ensures
        reports(true, nexts) == seq![
            match nexts[first] {
                Next::Failed(e) => Err::<(), E>(e),
                _ => Ok::<(), E>(()),
            },
        ],
    decreases nexts.len(),
{
    if first == 0 {
        lemma_nothing_to_report(nexts.skip(1));
        assert(reports(true, nexts) =~= seq![
            match nexts[first] {
                Next::Failed(e) => Err::<(), E>(e),
                _ => Ok::<(), E>(()),
            },
        ]);
    } else {
        assert(nexts[0] is Sample);
        law_end_is_reported_once(nexts.skip(1), first - 1);
    }
}

/// Once the end has been reported, nothing is.
proof fn lemma_nothing_to_report<T, E>(nexts: Seq<Next<T, E>>)
    ensures
        reports(false, nexts) == Seq::<Result<(), E>>::empty(),
    decreases nexts.len(),
{
    if nexts.len() > 0 {
        lemma_nothing_to_report(nexts.skip(1));
    }
}

} // verus!
