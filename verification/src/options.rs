//! Command-line options: names, numbers and the rules they keep.

use vstd::prelude::*;

use crate::bags::split_at;
use crate::counterfactual::TrialOptions;
use crate::features::InputMode;
use crate::fragments::LexiconFilter;
use crate::text::{all_digits, digits_value, is_digit};

verus! {

// ---------------------------------------------------------------------------
// Names and values
// ---------------------------------------------------------------------------

/// Options as they were given, in order.
pub struct Arguments {
    pub names: Vec<String>,
    pub values: Vec<String>,
}

/// What is wrong with a command line.
#[derive(Clone, Copy, Debug, PartialEq, Eq, Structural)]
pub enum ArgumentFault {
    Odd,
    Prefix,
}

pub open spec fn has_prefix(text: Seq<char>) -> bool {
    text.len() >= 2 && text[0] == '-' && text[1] == '-'
}

/// Whether the arguments are names, each with two dashes, and values in turn.
pub open spec fn arguments_fault(arguments: Seq<String>) -> Option<ArgumentFault> {
    if arguments.len() % 2 != 0 {
        Some(ArgumentFault::Odd)
    } else if forall|i: int|
        0 <= i < arguments.len() / 2 ==> has_prefix((#[trigger] arguments[2 * i])@) {
        None
    } else {
        Some(ArgumentFault::Prefix)
    }
}

/// The value of an option: the last that was given, among the first `count`.
pub open spec fn last_value(
    names: Seq<String>,
    values: Seq<String>,
    name: Seq<char>,
    count: int,
) -> Option<Seq<char>>
    decreases count,
{
    if count <= 0 {
        None
    } else if names[count - 1]@ == name {
        Some(values[count - 1]@)
    } else {
        last_value(names, values, name, count - 1)
    }
}

fn strip_dashes(text: &String) -> (name: Option<String>)
    ensures
        name.is_some() == has_prefix(text@),
        name matches Some(found) ==> found@ == text@.skip(2),
{
    let length: usize = text.as_str().unicode_len();
    if length < 2 || text.as_str().get_char(0) != '-' || text.as_str().get_char(1) != '-' {
        return None;
    }
    let name: String = text.as_str().substring_char(2, length).to_owned();
    assert(name@ =~= text@.skip(2));
    Some(name)
}

/// Reads names and values.
pub fn parse_pairs(arguments: &Vec<String>) -> (parsed: Result<Arguments, ArgumentFault>)
    ensures
        match parsed {
            Err(fault) => arguments_fault(arguments@) == Some(fault),
            Ok(found) => {
                &&& arguments_fault(arguments@).is_none()
                &&& found.names.len() == arguments.len() / 2
                &&& found.values.len() == arguments.len() / 2
                &&& forall|i: int|
                    0 <= i < found.names.len() ==> (#[trigger] found.names@[i])@ == arguments@[2
                        * i]@.skip(2)
                &&& forall|i: int|
                    0 <= i < found.values.len() ==> (#[trigger] found.values@[i])@ == arguments@[2
                        * i + 1]@
            },
        },
{
    if arguments.len() % 2 != 0 {
        return Err(ArgumentFault::Odd);
    }
    let count: usize = arguments.len() / 2;
    let mut names: Vec<String> = Vec::new();
    let mut values: Vec<String> = Vec::new();
    let mut index: usize = 0;
    while index < count
        invariant
            index <= count,
            arguments.len() == 2 * count,
            names.len() == index,
            values.len() == index,
            forall|i: int| 0 <= i < index ==> has_prefix((#[trigger] arguments@[2 * i])@),
            forall|i: int|
                0 <= i < names.len() ==> (#[trigger] names@[i])@ == arguments@[2 * i]@.skip(2),
            forall|i: int|
                0 <= i < values.len() ==> (#[trigger] values@[i])@ == arguments@[2 * i + 1]@,
        decreases count - index,
    {
        match strip_dashes(&arguments[2 * index]) {
            None => {
                assert(!has_prefix(arguments@[2 * index]@));
                return Err(ArgumentFault::Prefix);
            },
            Some(name) => {
                names.push(name);
                values.push(arguments[2 * index + 1].clone());
            },
        }
        index += 1;
    }
    Ok(Arguments { names, values })
}

impl Arguments {
    pub open spec fn wf(&self) -> bool {
        self.names.len() == self.values.len()
    }

    pub open spec fn value(&self, name: Seq<char>) -> Option<Seq<char>> {
        last_value(self.names@, self.values@, name, self.names.len() as int)
    }

    /// The value of an option; where it was given more than once, the last.
    pub fn get(&self, name: &str) -> (value: Option<String>)
        requires
            self.wf(),
        ensures
            value.is_some() == self.value(name@).is_some(),
            value matches Some(found) ==> self.value(name@) == Some(found@),
    {
        let wanted: String = name.to_owned();
        let mut count: usize = self.names.len();
        while count > 0
            invariant
                self.wf(),
                count <= self.names.len(),
                wanted@ == name@,
                self.value(name@) == last_value(self.names@, self.values@, name@, count as int),
            decreases count,
        {
            if self.names[count - 1] == wanted {
                return Some(self.values[count - 1].clone());
            }
            count -= 1;
        }
        None
    }
}

// ---------------------------------------------------------------------------
// Numbers
// ---------------------------------------------------------------------------

/// The digits of a written number, without a plus sign in front.
pub open spec fn digits_of(text: Seq<char>) -> Seq<char> {
    if text.len() > 0 && text[0] == '+' {
        text.skip(1)
    } else {
        text
    }
}

/// The whole number that a text stands for, if it stands for one up to `most`.
pub open spec fn number_in(text: Seq<char>, most: int) -> Option<int> {
    let digits = digits_of(text);
    if digits.len() == 0 || !all_digits(digits) || digits_value(digits) > most {
        None
    } else {
        Some(digits_value(digits) as int)
    }
}

proof fn lemma_prefix_value(digits: Seq<char>, count: int)
    requires
        0 <= count <= digits.len(),
        all_digits(digits),
    ensures
        digits_value(digits.take(count)) <= digits_value(digits),
    decreases digits.len() - count,
{
    if count < digits.len() {
        lemma_prefix_value(digits, count + 1);
        let longer = digits.take(count + 1);
        assert(longer.drop_last() =~= digits.take(count));
        assert(is_digit(digits[count]));
    } else {
        assert(digits.take(count) =~= digits);
    }
}

fn digit_of(c: char) -> (digit: Option<u64>)
    ensures
        digit.is_some() == is_digit(c),
        digit matches Some(found) ==> found == c as int - '0' as int && found <= 9,
{
    if '0' <= c && c <= '9' {
        Some(c as u64 - '0' as u64)
    } else {
        None
    }
}

/// Reads a whole number up to `most`.
pub fn parse_number(text: &str, most: u64) -> (number: Option<u64>)
    ensures
        number.is_some() == number_in(text@, most as int).is_some(),
        number matches Some(found) ==> number_in(text@, most as int) == Some(found as int),
{
    let length: usize = text.unicode_len();
    let first: usize = if length > 0 && text.get_char(0) == '+' {
        1
    } else {
        0
    };
    let ghost digits = digits_of(text@);
    assert(digits =~= text@.skip(first as int));
    if first == length {
        return None;
    }
    let mut value: u64 = 0;
    let mut index: usize = first;
    assert(digits.take(0) =~= Seq::<char>::empty());
    while index < length
        invariant
            first <= index <= length,
            length == text@.len(),
            digits == digits_of(text@),
            digits == text@.skip(first as int),
            all_digits(digits.take(index - first)),
            value == digits_value(digits.take(index - first)),
            value <= most,
        decreases length - index,
    {
        let ghost before = digits.take(index - first);
        let ghost after = digits.take(index - first + 1);
        assert(after.drop_last() =~= before);
        assert(after.last() == text@[index as int]);
        match digit_of(text.get_char(index)) {
            None => {
                assert(!is_digit(digits[index - first]));
                return None;
            },
            Some(digit) => {
                if digit > most || value > (most - digit) / 10 {
                    proof {
                        if all_digits(digits) {
                            lemma_prefix_value(digits, index - first + 1);
                        }
                        assert(10 * value + digit > most);
                    }
                    return None;
                }
                value = 10 * value + digit;
                assert(all_digits(after)) by {
                    assert forall|i: int| 0 <= i < after.len() implies is_digit(
                        #[trigger] after[i],
                    ) by {
                        if i < before.len() {
                            assert(after[i] == before[i]);
                        }
                    }
                }
            },
        }
        index += 1;
    }
    assert(digits.take(length - first) =~= digits);
    Some(value)
}

pub open spec fn is_comma() -> spec_fn(char) -> bool {
    |c: char| c == ','
}

/// The parts of a text between commas.
pub fn split_commas(text: &str) -> (parts: Vec<String>)
    ensures
        parts.len() == split_at(text@, is_comma()).len(),
        parts.len() >= 1,
        forall|i: int|
            0 <= i < parts.len() ==> (#[trigger] parts@[i])@ == split_at(text@, is_comma())[i],
{
    let mut parts: Vec<String> = Vec::new();
    let mut part: String = String::new();
    let ghost mut seen: Seq<char> = Seq::empty();
    assert(split_at(seen, is_comma()) =~= seq![part@]);
    for c in characters: text.chars()
        invariant
            characters.seq() == text@,
            seen == text@.take(characters.index() as int),
            split_at(seen, is_comma()).len() == parts.len() + 1,
            split_at(seen, is_comma())[parts.len() as int] == part@,
            forall|i: int|
                0 <= i < parts.len() ==> (#[trigger] parts@[i])@ == split_at(seen, is_comma())[i],
    {
        let ghost longer = seen.push(c);
        assert(longer.drop_last() =~= seen);
        assert(longer =~= text@.take(characters.index() + 1));
        if c == ',' {
            parts.push(part);
            part = String::new();
            assert(part@ =~= Seq::<char>::empty());
        } else {
            part.push(c);
        }
        proof {
            seen = longer;
        }
    }
    assert(seen =~= text@);
    parts.push(part);
    parts
}

// ---------------------------------------------------------------------------
// Self-play
// ---------------------------------------------------------------------------

/// What became of a fractional option when it was read.
#[derive(Clone, Copy, Debug, PartialEq, Eq, Structural)]
pub enum FractionStatus {
    Unreadable,
    OutOfRange,
    Fine,
}

/// Why options were refused: an option that is no number, or a rule they break.
#[derive(Clone, Copy, Debug)]
pub enum OptionFault {
    Unreadable(&'static str),
    Rule(&'static str),
}

pub ghost struct FaultModel {
    pub readable: bool,
    pub text: Seq<char>,
}

impl OptionFault {
    pub open spec fn view(&self) -> FaultModel {
        match self {
            OptionFault::Unreadable(name) => FaultModel { readable: false, text: name@ },
            OptionFault::Rule(text) => FaultModel { readable: true, text: text@ },
        }
    }
}

/// The fractional options and what else the rules need to know.
#[derive(Clone, Copy, Debug)]
pub struct SelfPlayContext {
    pub default_threads: u64,
    pub hours: FractionStatus,
    pub fragment_weight: FractionStatus,
    pub root_ranker_weight: FractionStatus,
}

/// The whole-number options of a run.
pub struct SelfPlayNumbers {
    pub depths: Vec<usize>,
    pub shard_records: usize,
    pub threads: usize,
    pub beam_width: Option<usize>,
    pub fragment_candidates: usize,
    pub root_candidate_beam: Option<usize>,
    pub root_candidates: usize,
    pub root_ranker_candidate_beam: usize,
    pub root_ranker_candidates: usize,
    pub max_games: u64,
    pub seed: u32,
}

/// The number that an option has, or its default; nothing where it is no number.
pub open spec fn number_or(value: Option<Seq<char>>, default: int, most: int) -> Option<int> {
    match value {
        None => Some(default),
        Some(text) => number_in(text, most),
    }
}

/// A number or its absence; nothing where an option was given that is no number.
pub open spec fn optional_number(value: Option<Seq<char>>, most: int) -> Option<Option<int>> {
    match value {
        None => Some(None),
        Some(text) => match number_in(text, most) {
            None => None,
            Some(number) => Some(Some(number)),
        },
    }
}

pub open spec fn is_within(number: int, least: int, most: int) -> bool {
    least <= number <= most
}

/// The depths that an option lists; nothing where one is no number.
pub open spec fn depths_in(parts: Seq<Seq<char>>, count: int) -> Option<Seq<int>>
    decreases count,
{
    if count <= 0 {
        Some(Seq::empty())
    } else {
        match (depths_in(parts, count - 1), number_in(parts[count - 1], usize::MAX as int)) {
            (Some(depths), Some(depth)) => Some(depths.push(depth)),
            _ => None,
        }
    }
}

impl Arguments {
    /// A number option; nothing where it is no number.
    pub fn number(&self, name: &str, default: u64, most: u64) -> (number: Option<u64>)
        requires
            self.wf(),
        ensures
            number.is_some() == number_or(
                self.value(name@),
                default as int,
                most as int,
            ).is_some(),
            number matches Some(found) ==> number_or(
                self.value(name@),
                default as int,
                most as int,
            ) == Some(found as int),
    {
        match self.get(name) {
            None => Some(default),
            Some(text) => parse_number(text.as_str(), most),
        }
    }

    /// A number option that may be absent; nothing where it is no number.
    pub fn optional(&self, name: &str, most: u64) -> (number: Option<Option<u64>>)
        requires
            self.wf(),
        ensures
            number.is_some() == optional_number(self.value(name@), most as int).is_some(),
            number matches Some(found) ==> optional_number(self.value(name@), most as int) == Some(
                match found {
                    None => None,
                    Some(value) => Some(value as int),
                },
            ),
    {
        match self.get(name) {
            None => Some(None),
            Some(text) => match parse_number(text.as_str(), most) {
                None => None,
                Some(value) => Some(Some(value)),
            },
        }
    }
}

pub open spec fn usize_views(numbers: Seq<usize>) -> Seq<int> {
    Seq::new(numbers.len(), |i: int| numbers[i] as int)
}

proof fn lemma_unreadable_stays(parts: Seq<Seq<char>>, count: int, last: int)
    requires
        0 <= count <= last,
        depths_in(parts, count).is_none(),
    ensures
        depths_in(parts, last).is_none(),
    decreases last - count,
{
    if count < last {
        lemma_unreadable_stays(parts, count, last - 1);
    }
}

/// Reads the depths that an option lists; nothing where one is no number.
pub fn parse_depths(text: &str) -> (depths: Option<Vec<usize>>)
    ensures
        ({
            let parts = split_at(text@, is_comma());
            let found = depths_in(parts, parts.len() as int);
            &&& depths.is_some() == found.is_some()
            &&& depths matches Some(list) ==> found == Some(usize_views(list@))
        }),
{
    let parts: Vec<String> = split_commas(text);
    let ghost views = split_at(text@, is_comma());
    let mut depths: Vec<usize> = Vec::new();
    let mut index: usize = 0;
    assert(usize_views(depths@) =~= Seq::<int>::empty());
    while index < parts.len()
        invariant
            index <= parts.len(),
            views == split_at(text@, is_comma()),
            parts.len() == views.len(),
            forall|i: int| 0 <= i < parts.len() ==> (#[trigger] parts@[i])@ == views[i],
            depths.len() == index,
            depths_in(views, index as int) == Some(usize_views(depths@)),
        decreases parts.len() - index,
    {
        assert(parts@[index as int]@ == views[index as int]);
        match parse_number(parts[index].as_str(), usize::MAX as u64) {
            None => {
                proof {
                    lemma_unreadable_stays(views, index + 1, views.len() as int);
                }
                return None;
            },
            Some(depth) => {
                let ghost before = usize_views(depths@);
                depths.push(depth as usize);
                assert(usize_views(depths@) =~= before.push(depth as int));
            },
        }
        index += 1;
    }
    Some(depths)
}

pub open spec fn all_within(numbers: Seq<int>, least: int, most: int) -> bool {
    forall|i: int| 0 <= i < numbers.len() ==> least <= #[trigger] numbers[i] <= most
}

fn check_all_within(numbers: &Vec<usize>, least: usize, most: usize) -> (within: bool)
    ensures
        within == all_within(usize_views(numbers@), least as int, most as int),
{
    let mut index: usize = 0;
    while index < numbers.len()
        invariant
            index <= numbers.len(),
            forall|i: int| 0 <= i < index ==> least <= #[trigger] usize_views(numbers@)[i] <= most,
        decreases numbers.len() - index,
    {
        assert(usize_views(numbers@)[index as int] == numbers@[index as int]);
        if numbers[index] < least || numbers[index] > most {
            return false;
        }
        index += 1;
    }
    true
}

/// What is wrong with a number option that has to lie between two bounds.
pub open spec fn number_fault(
    number: Option<int>,
    least: int,
    most: int,
    name: Seq<char>,
    rule: Seq<char>,
) -> Option<FaultModel> {
    match number {
        None => Some(FaultModel { readable: false, text: name }),
        Some(found) => if is_within(found, least, most) {
            None
        } else {
            Some(FaultModel { readable: true, text: rule })
        },
    }
}

/// What is wrong with a number option that may be absent.
pub open spec fn optional_fault(
    number: Option<Option<int>>,
    least: int,
    most: int,
    name: Seq<char>,
    rule: Seq<char>,
) -> Option<FaultModel> {
    match number {
        None => Some(FaultModel { readable: false, text: name }),
        Some(None) => None,
        Some(Some(found)) => if is_within(found, least, most) {
            None
        } else {
            Some(FaultModel { readable: true, text: rule })
        },
    }
}

/// What is wrong with a fractional option.
pub open spec fn fraction_fault(status: FractionStatus, name: Seq<char>, rule: Seq<char>) -> Option<
    FaultModel,
> {
    match status {
        FractionStatus::Unreadable => Some(FaultModel { readable: false, text: name }),
        FractionStatus::OutOfRange => Some(FaultModel { readable: true, text: rule }),
        FractionStatus::Fine => None,
    }
}

/// A rule that has to hold.
pub open spec fn rule_fault(holds: bool, rule: Seq<char>) -> Option<FaultModel> {
    if holds {
        None
    } else {
        Some(FaultModel { readable: true, text: rule })
    }
}

/// The first fault from place `from` on.
pub open spec fn first_fault(checks: Seq<Option<FaultModel>>, from: int) -> Option<FaultModel>
    decreases checks.len() - from,
{
    if from >= checks.len() {
        None
    } else if checks[from].is_some() {
        checks[from]
    } else {
        first_fault(checks, from + 1)
    }
}

proof fn lemma_first_fault(checks: Seq<Option<FaultModel>>, from: int, place: int)
    requires
        0 <= from <= place <= checks.len(),
        forall|i: int| from <= i < place ==> (#[trigger] checks[i]).is_none(),
        place < checks.len() ==> checks[place].is_some(),
    ensures
        place < checks.len() ==> first_fault(checks, from) == checks[place],
        place == checks.len() ==> first_fault(checks, from).is_none(),
    decreases place - from,
{
    if from < place {
        assert(checks[from].is_none());
        lemma_first_fault(checks, from + 1, place);
    }
}

/// The depths that a run was asked for.
pub open spec fn asked_depths(arguments: Arguments) -> Option<Seq<int>> {
    let text = match arguments.value("depths"@) {
        Some(text) => text,
        None => "2,3,3,3"@,
    };
    let parts = split_at(text, is_comma());
    depths_in(parts, parts.len() as int)
}

pub open spec fn depths_fault(depths: Option<Seq<int>>) -> Option<FaultModel> {
    match depths {
        None => Some(FaultModel { readable: false, text: "depths"@ }),
        Some(found) => if found.len() > 0 && all_within(found, 1, 5) {
            None
        } else {
            Some(
                FaultModel {
                    readable: true,
                    text: "--depths must contain comma-separated integers from 1 through 5"@,
                },
            )
        },
    }
}

/// What a run's options are held to, in order.
pub open spec fn self_play_checks(arguments: Arguments, context: SelfPlayContext) -> Seq<
    Option<FaultModel>,
> {
    let most = usize::MAX as int;
    let full = arguments.value("fragment-full"@).is_some();
    let fragment_context = arguments.value("fragment-context"@).is_some();
    let ranker = arguments.value("root-ranker"@).is_some();
    let pool = arguments.value("root-candidate-beam"@).is_some();
    let depths = asked_depths(arguments);
    seq![
        depths_fault(depths),
        fraction_fault(context.hours, "hours"@, "--hours must be positive and finite"@),
        number_fault(
            number_or(arguments.value("shard-records"@), 2_000, most),
            100,
            most,
            "shard-records"@,
            "--shard-records must be at least 100"@,
        ),
        number_fault(
            number_or(arguments.value("threads"@), context.default_threads as int, most),
            1,
            most,
            "threads"@,
            "--threads must be at least 1"@,
        ),
        optional_fault(
            optional_number(arguments.value("beam-width"@), most),
            12,
            160,
            "beam-width"@,
            "--beam-width must be from 12 through 160"@,
        ),
        rule_fault(
            full == fragment_context,
            "--fragment-full and --fragment-context must be supplied together"@,
        ),
        fraction_fault(
            context.fragment_weight,
            "fragment-weight"@,
            "--fragment-weight must be finite and nonnegative"@,
        ),
        number_fault(
            number_or(arguments.value("fragment-candidates"@), 12, most),
            1,
            160,
            "fragment-candidates"@,
            "--fragment-candidates must be from 1 through 160"@,
        ),
        optional_fault(
            optional_number(arguments.value("root-candidate-beam"@), most),
            12,
            160,
            "root-candidate-beam"@,
            "--root-candidate-beam must be from 12 through 160"@,
        ),
        number_fault(
            number_or(arguments.value("root-candidates"@), 12, most),
            1,
            160,
            "root-candidates"@,
            "--root-candidates must be from 1 through 160"@,
        ),
        rule_fault(
            !(ranker && full),
            "--root-ranker cannot be combined with the fragment model options"@,
        ),
        rule_fault(
            !(pool && (ranker || full)),
            "--root-candidate-beam cannot be combined with learned model options"@,
        ),
        rule_fault(
            !(ranker && !(depths matches Some(found) && all_within(found, 3, 3))),
            "--root-ranker currently requires --depths 3"@,
        ),
        number_fault(
            number_or(arguments.value("root-ranker-candidate-beam"@), 160, most),
            12,
            160,
            "root-ranker-candidate-beam"@,
            "--root-ranker-candidate-beam must be from 12 through 160"@,
        ),
        number_fault(
            number_or(arguments.value("root-ranker-candidates"@), 12, most),
            1,
            160,
            "root-ranker-candidates"@,
            "--root-ranker-candidates must be from 1 through 160"@,
        ),
        fraction_fault(
            context.root_ranker_weight,
            "root-ranker-weight"@,
            "--root-ranker-weight must be finite and nonnegative"@,
        ),
        number_fault(
            number_or(arguments.value("games"@), 9_007_199_254_740_991, u64::MAX as int),
            0,
            u64::MAX as int,
            "games"@,
            ""@,
        ),
        number_fault(
            number_or(arguments.value("seed"@), 12_628_309, u32::MAX as int),
            0,
            u32::MAX as int,
            "seed"@,
            ""@,
        ),
    ]
}

/// Reads an option and holds it to its bounds.
fn bounded(
    arguments: &Arguments,
    name: &'static str,
    default: u64,
    most: u64,
    least: u64,
    greatest: u64,
    rule: &'static str,
) -> (number: Result<u64, OptionFault>)
    requires
        arguments.wf(),
    ensures
        ({
            let found = number_or(arguments.value(name@), default as int, most as int);
            let fault = number_fault(found, least as int, greatest as int, name@, rule@);
            match number {
                Ok(value) => fault.is_none() && found == Some(value as int),
                Err(refused) => fault == Some(refused@),
            }
        }),
{
    match arguments.number(name, default, most) {
        None => Err(OptionFault::Unreadable(name)),
        Some(value) => if value < least || value > greatest {
            Err(OptionFault::Rule(rule))
        } else {
            Ok(value)
        },
    }
}

/// Reads an option that may be absent and holds it to its bounds.
fn bounded_if_given(
    arguments: &Arguments,
    name: &'static str,
    least: u64,
    greatest: u64,
    rule: &'static str,
) -> (number: Result<Option<usize>, OptionFault>)
    requires
        arguments.wf(),
    ensures
        ({
            let found = optional_number(arguments.value(name@), usize::MAX as int);
            let fault = optional_fault(found, least as int, greatest as int, name@, rule@);
            match number {
                Ok(None) => fault.is_none() && found == Some(None::<int>),
                Ok(Some(value)) => fault.is_none() && found == Some(Some(value as int)),
                Err(refused) => fault == Some(refused@),
            }
        }),
{
    match arguments.optional(name, usize::MAX as u64) {
        None => Err(OptionFault::Unreadable(name)),
        Some(None) => Ok(None),
        Some(Some(value)) => if value < least || value > greatest {
            Err(OptionFault::Rule(rule))
        } else {
            Ok(Some(value as usize))
        },
    }
}

fn check_fraction(status: FractionStatus, name: &'static str, rule: &'static str) -> (result: Result<
    (),
    OptionFault,
>)
    ensures
        match result {
            Ok(_) => fraction_fault(status, name@, rule@).is_none(),
            Err(refused) => fraction_fault(status, name@, rule@) == Some(refused@),
        },
{
    match status {
        FractionStatus::Unreadable => Err(OptionFault::Unreadable(name)),
        FractionStatus::OutOfRange => Err(OptionFault::Rule(rule)),
        FractionStatus::Fine => Ok(()),
    }
}

fn read_depths(arguments: &Arguments) -> (depths: Result<Vec<usize>, OptionFault>)
    requires
        arguments.wf(),
    ensures
        match depths {
            Ok(found) => {
                &&& depths_fault(asked_depths(*arguments)).is_none()
                &&& asked_depths(*arguments) == Some(usize_views(found@))
            },
            Err(refused) => depths_fault(asked_depths(*arguments)) == Some(refused@),
        },
{
    let text: String = match arguments.get("depths") {
        Some(text) => text,
        None => "2,3,3,3".to_owned(),
    };
    match parse_depths(text.as_str()) {
        None => Err(OptionFault::Unreadable("depths")),
        Some(depths) => {
            assert(usize_views(depths@).len() == depths.len());
            if depths.len() == 0 || !check_all_within(&depths, 1, 5) {
                Err(
                    OptionFault::Rule(
                        "--depths must contain comma-separated integers from 1 through 5",
                    ),
                )
            } else {
                Ok(depths)
            }
        },
    }
}

/// What the options of a run say once they are in order.
pub open spec fn numbers_say(
    numbers: SelfPlayNumbers,
    arguments: Arguments,
    context: SelfPlayContext,
) -> bool {
    let most = usize::MAX as int;
    &&& asked_depths(arguments) == Some(usize_views(numbers.depths@))
    &&& number_or(arguments.value("shard-records"@), 2_000, most) == Some(
        numbers.shard_records as int,
    )
    &&& number_or(arguments.value("threads"@), context.default_threads as int, most) == Some(
        numbers.threads as int,
    )
    &&& optional_number(arguments.value("beam-width"@), most) == Some(
        optional_view(numbers.beam_width),
    )
    &&& number_or(arguments.value("fragment-candidates"@), 12, most) == Some(
        numbers.fragment_candidates as int,
    )
    &&& optional_number(arguments.value("root-candidate-beam"@), most) == Some(
        optional_view(numbers.root_candidate_beam),
    )
    &&& number_or(arguments.value("root-candidates"@), 12, most) == Some(
        numbers.root_candidates as int,
    )
    &&& number_or(arguments.value("root-ranker-candidate-beam"@), 160, most) == Some(
        numbers.root_ranker_candidate_beam as int,
    )
    &&& number_or(arguments.value("root-ranker-candidates"@), 12, most) == Some(
        numbers.root_ranker_candidates as int,
    )
    &&& number_or(
        arguments.value("games"@),
        9_007_199_254_740_991,
        u64::MAX as int,
    ) == Some(numbers.max_games as int)
    &&& number_or(arguments.value("seed"@), 12_628_309, u32::MAX as int) == Some(
        numbers.seed as int,
    )
}

pub open spec fn optional_view(number: Option<usize>) -> Option<int> {
    match number {
        None => None,
        Some(value) => Some(value as int),
    }
}

/// Reads the options of a run and holds them to its rules.
pub fn self_play_numbers(arguments: &Arguments, context: SelfPlayContext) -> (numbers: Result<
    SelfPlayNumbers,
    OptionFault,
>)
    requires
        arguments.wf(),
        context.default_threads <= usize::MAX,
    ensures
        ({
            let fault = first_fault(self_play_checks(*arguments, context), 0);
            match numbers {
                Ok(found) => fault.is_none() && numbers_say(found, *arguments, context),
                Err(refused) => fault == Some(refused@),
            }
        }),
{
    let ghost checks = self_play_checks(*arguments, context);
    let most: u64 = usize::MAX as u64;
    let depths: Vec<usize> = match read_depths(arguments) {
        Ok(depths) => depths,
        Err(fault) => {
            proof {
                lemma_first_fault(checks, 0, 0);
            }
            return Err(fault);
        },
    };
    match check_fraction(context.hours, "hours", "--hours must be positive and finite") {
        Ok(_) => {},
        Err(fault) => {
            proof {
                lemma_first_fault(checks, 0, 1);
            }
            return Err(fault);
        },
    }
    let shard_records: u64 = match bounded(
        arguments,
        "shard-records",
        2_000,
        most,
        100,
        most,
        "--shard-records must be at least 100",
    ) {
        Ok(number) => number,
        Err(fault) => {
            proof {
                lemma_first_fault(checks, 0, 2);
            }
            return Err(fault);
        },
    };
    let threads: u64 = match bounded(
        arguments,
        "threads",
        context.default_threads,
        most,
        1,
        most,
        "--threads must be at least 1",
    ) {
        Ok(number) => number,
        Err(fault) => {
            proof {
                lemma_first_fault(checks, 0, 3);
            }
            return Err(fault);
        },
    };
    let beam_width: Option<usize> = match bounded_if_given(
        arguments,
        "beam-width",
        12,
        160,
        "--beam-width must be from 12 through 160",
    ) {
        Ok(number) => number,
        Err(fault) => {
            proof {
                lemma_first_fault(checks, 0, 4);
            }
            return Err(fault);
        },
    };
    let full: bool = arguments.get("fragment-full").is_some();
    let fragment_context: bool = arguments.get("fragment-context").is_some();
    let ranker: bool = arguments.get("root-ranker").is_some();
    if full != fragment_context {
        proof {
            lemma_first_fault(checks, 0, 5);
        }
        return Err(
            OptionFault::Rule("--fragment-full and --fragment-context must be supplied together"),
        );
    }
    match check_fraction(context.fragment_weight, "fragment-weight", "--fragment-weight must be finite and nonnegative") {
        Ok(_) => {},
        Err(fault) => {
            proof {
                lemma_first_fault(checks, 0, 6);
            }
            return Err(fault);
        },
    }
    let fragment_candidates: u64 = match bounded(
        arguments,
        "fragment-candidates",
        12,
        most,
        1,
        160,
        "--fragment-candidates must be from 1 through 160",
    ) {
        Ok(number) => number,
        Err(fault) => {
            proof {
                lemma_first_fault(checks, 0, 7);
            }
            return Err(fault);
        },
    };
    let root_candidate_beam: Option<usize> = match bounded_if_given(
        arguments,
        "root-candidate-beam",
        12,
        160,
        "--root-candidate-beam must be from 12 through 160",
    ) {
        Ok(number) => number,
        Err(fault) => {
            proof {
                lemma_first_fault(checks, 0, 8);
            }
            return Err(fault);
        },
    };
    let root_candidates: u64 = match bounded(
        arguments,
        "root-candidates",
        12,
        most,
        1,
        160,
        "--root-candidates must be from 1 through 160",
    ) {
        Ok(number) => number,
        Err(fault) => {
            proof {
                lemma_first_fault(checks, 0, 9);
            }
            return Err(fault);
        },
    };
    if ranker && full {
        proof {
            lemma_first_fault(checks, 0, 10);
        }
        return Err(
            OptionFault::Rule("--root-ranker cannot be combined with the fragment model options"),
        );
    }
    if root_candidate_beam.is_some() && (ranker || full) {
        proof {
            lemma_first_fault(checks, 0, 11);
        }
        return Err(
            OptionFault::Rule("--root-candidate-beam cannot be combined with learned model options"),
        );
    }
    if ranker && !check_all_within(&depths, 3, 3) {
        proof {
            lemma_first_fault(checks, 0, 12);
        }
        return Err(
            OptionFault::Rule("--root-ranker currently requires --depths 3"),
        );
    }
    let root_ranker_candidate_beam: u64 = match bounded(
        arguments,
        "root-ranker-candidate-beam",
        160,
        most,
        12,
        160,
        "--root-ranker-candidate-beam must be from 12 through 160",
    ) {
        Ok(number) => number,
        Err(fault) => {
            proof {
                lemma_first_fault(checks, 0, 13);
            }
            return Err(fault);
        },
    };
    let root_ranker_candidates: u64 = match bounded(
        arguments,
        "root-ranker-candidates",
        12,
        most,
        1,
        160,
        "--root-ranker-candidates must be from 1 through 160",
    ) {
        Ok(number) => number,
        Err(fault) => {
            proof {
                lemma_first_fault(checks, 0, 14);
            }
            return Err(fault);
        },
    };
    match check_fraction(context.root_ranker_weight, "root-ranker-weight", "--root-ranker-weight must be finite and nonnegative") {
        Ok(_) => {},
        Err(fault) => {
            proof {
                lemma_first_fault(checks, 0, 15);
            }
            return Err(fault);
        },
    }
    let max_games: u64 = match bounded(
        arguments,
        "games",
        9_007_199_254_740_991,
        u64::MAX,
        0,
        u64::MAX,
        "",
    ) {
        Ok(number) => number,
        Err(fault) => {
            proof {
                lemma_first_fault(checks, 0, 16);
            }
            return Err(fault);
        },
    };
    let seed: u64 = match bounded(
        arguments,
        "seed",
        12_628_309,
        0xffff_ffff,
        0,
        0xffff_ffff,
        "",
    ) {
        Ok(number) => number,
        Err(fault) => {
            proof {
                lemma_first_fault(checks, 0, 17);
            }
            return Err(fault);
        },
    };
    proof {
        lemma_first_fault(checks, 0, 18);
    }
    Ok(
        SelfPlayNumbers {
            depths,
            shard_records: shard_records as usize,
            threads: threads as usize,
            beam_width,
            fragment_candidates: fragment_candidates as usize,
            root_candidate_beam,
            root_candidates: root_candidates as usize,
            root_ranker_candidate_beam: root_ranker_candidate_beam as usize,
            root_ranker_candidates: root_ranker_candidates as usize,
            max_games,
            seed: seed as u32,
        },
    )
}

// ---------------------------------------------------------------------------
// Trials
// ---------------------------------------------------------------------------

/// The options that a trial run was asked for, once they are numbers.
pub open spec fn trial_options_say(
    options: TrialOptions,
    arguments: Arguments,
    default_threads: int,
) -> bool {
    let most = usize::MAX as int;
    &&& number_or(arguments.value("positions"@), 10_000, most) == Some(options.positions as int)
    &&& number_or(arguments.value("candidates"@), 12, most) == Some(options.candidates as int)
    &&& number_or(arguments.value("search-depth"@), 3, most) == Some(options.search_depth as int)
    &&& number_or(arguments.value("rollout-depth"@), 3, most) == Some(options.rollout_depth as int)
    &&& number_or(arguments.value("horizon"@), 8, most) == Some(options.horizon as int)
    &&& number_or(arguments.value("candidate-beam-width"@), 160, most) == Some(options.candidate_beam_width as int)
    &&& number_or(arguments.value("rollout-beam-width"@), 64, most) == Some(options.rollout_beam_width as int)
    &&& number_or(arguments.value("threads"@), default_threads, most) == Some(options.threads as int)
    &&& number_or(arguments.value("sample-modulus"@), 8, u32::MAX as int) == Some(options.sample_modulus as int)
}

/// What a trial run's options are held to, before their ranges.
pub open spec fn trial_checks(arguments: Arguments, default_threads: int) -> Seq<
    Option<FaultModel>,
> {
    let most = usize::MAX as int;
    seq![
        number_fault(
            number_or(arguments.value("positions"@), 10_000, most),
            0,
            most,
            "positions"@,
            ""@,
        ),
        number_fault(
            number_or(arguments.value("candidates"@), 12, most),
            0,
            most,
            "candidates"@,
            ""@,
        ),
        number_fault(
            number_or(arguments.value("search-depth"@), 3, most),
            0,
            most,
            "search-depth"@,
            ""@,
        ),
        number_fault(
            number_or(arguments.value("rollout-depth"@), 3, most),
            0,
            most,
            "rollout-depth"@,
            ""@,
        ),
        number_fault(
            number_or(arguments.value("horizon"@), 8, most),
            0,
            most,
            "horizon"@,
            ""@,
        ),
        number_fault(
            number_or(arguments.value("candidate-beam-width"@), 160, most),
            0,
            most,
            "candidate-beam-width"@,
            ""@,
        ),
        number_fault(
            number_or(arguments.value("rollout-beam-width"@), 64, most),
            0,
            most,
            "rollout-beam-width"@,
            ""@,
        ),
        number_fault(
            number_or(arguments.value("threads"@), default_threads, most),
            0,
            most,
            "threads"@,
            ""@,
        ),
        number_fault(
            number_or(arguments.value("sample-modulus"@), 8, u32::MAX as int),
            0,
            u32::MAX as int,
            "sample-modulus"@,
            ""@,
        ),
    ]
}

/// Reads the options of a trial run and holds them to their ranges.
pub fn trial_options(arguments: &Arguments, default_threads: u64) -> (options: Result<
    TrialOptions,
    OptionFault,
>)
    requires
        arguments.wf(),
        default_threads <= usize::MAX,
    ensures
        ({
            let fault = first_fault(trial_checks(*arguments, default_threads as int), 0);
            match options {
                Ok(found) => {
                    &&& fault.is_none()
                    &&& found.valid()
                    &&& trial_options_say(found, *arguments, default_threads as int)
                },
                Err(refused) => if fault.is_some() {
                    fault == Some(refused@)
                } else {
                    &&& refused@ == (FaultModel {
                        readable: true,
                        text: "counterfactual options are outside their supported ranges"@,
                    })
                    &&& exists|asked: TrialOptions|
                        !asked.valid() && #[trigger] trial_options_say(
                            asked,
                            *arguments,
                            default_threads as int,
                        )
                },
            }
        }),
{
    let ghost checks = trial_checks(*arguments, default_threads as int);
    let most: u64 = usize::MAX as u64;
    let positions: u64 = match bounded(arguments, "positions", 10_000, most, 0, most, "") {
        Ok(number) => number,
        Err(fault) => {
            proof {
                lemma_first_fault(checks, 0, 0);
            }
            return Err(fault);
        },
    };
    let candidates: u64 = match bounded(arguments, "candidates", 12, most, 0, most, "") {
        Ok(number) => number,
        Err(fault) => {
            proof {
                lemma_first_fault(checks, 0, 1);
            }
            return Err(fault);
        },
    };
    let search_depth: u64 = match bounded(arguments, "search-depth", 3, most, 0, most, "") {
        Ok(number) => number,
        Err(fault) => {
            proof {
                lemma_first_fault(checks, 0, 2);
            }
            return Err(fault);
        },
    };
    let rollout_depth: u64 = match bounded(arguments, "rollout-depth", 3, most, 0, most, "") {
        Ok(number) => number,
        Err(fault) => {
            proof {
                lemma_first_fault(checks, 0, 3);
            }
            return Err(fault);
        },
    };
    let horizon: u64 = match bounded(arguments, "horizon", 8, most, 0, most, "") {
        Ok(number) => number,
        Err(fault) => {
            proof {
                lemma_first_fault(checks, 0, 4);
            }
            return Err(fault);
        },
    };
    let candidate_beam_width: u64 = match bounded(arguments, "candidate-beam-width", 160, most, 0, most, "") {
        Ok(number) => number,
        Err(fault) => {
            proof {
                lemma_first_fault(checks, 0, 5);
            }
            return Err(fault);
        },
    };
    let rollout_beam_width: u64 = match bounded(arguments, "rollout-beam-width", 64, most, 0, most, "") {
        Ok(number) => number,
        Err(fault) => {
            proof {
                lemma_first_fault(checks, 0, 6);
            }
            return Err(fault);
        },
    };
    let threads: u64 = match bounded(arguments, "threads", default_threads, most, 0, most, "") {
        Ok(number) => number,
        Err(fault) => {
            proof {
                lemma_first_fault(checks, 0, 7);
            }
            return Err(fault);
        },
    };
    let sample_modulus: u64 = match bounded(arguments, "sample-modulus", 8, 0xffff_ffff, 0, 0xffff_ffff, "") {
        Ok(number) => number,
        Err(fault) => {
            proof {
                lemma_first_fault(checks, 0, 8);
            }
            return Err(fault);
        },
    };
    proof {
        lemma_first_fault(checks, 0, 9);
    }
    let options = TrialOptions {
        positions: positions as usize,
        candidates: candidates as usize,
        search_depth: search_depth as usize,
        rollout_depth: rollout_depth as usize,
        horizon: horizon as usize,
        candidate_beam_width: candidate_beam_width as usize,
        rollout_beam_width: rollout_beam_width as usize,
        threads: threads as usize,
        sample_modulus: sample_modulus as u32,
    };
    assert(trial_options_say(options, *arguments, default_threads as int));
    if options.is_valid() {
        Ok(options)
    } else {
        Err(OptionFault::Rule("counterfactual options are outside their supported ranges"))
    }
}

// ---------------------------------------------------------------------------
// Choices
// ---------------------------------------------------------------------------

pub open spec fn mode_named(name: Seq<char>) -> Option<InputMode> {
    if name == "full"@ {
        Some(InputMode::Full)
    } else if name == "mask-board-letters"@ {
        Some(InputMode::MaskBoardLetters)
    } else if name == "mask-future-letters"@ {
        Some(InputMode::MaskFutureLetters)
    } else if name == "mask-word-inputs"@ {
        Some(InputMode::MaskWordInputs)
    } else {
        None
    }
}

/// The input mode of a name; nothing for another text.
pub fn parse_input_mode(name: &String) -> (mode: Option<InputMode>)
    ensures
        mode == mode_named(name@),
{
    if *name == "full".to_owned() {
        Some(InputMode::Full)
    } else if *name == "mask-board-letters".to_owned() {
        Some(InputMode::MaskBoardLetters)
    } else if *name == "mask-future-letters".to_owned() {
        Some(InputMode::MaskFutureLetters)
    } else if *name == "mask-word-inputs".to_owned() {
        Some(InputMode::MaskWordInputs)
    } else {
        None
    }
}

pub open spec fn filter_named(name: Seq<char>) -> Option<LexiconFilter> {
    if name == "all"@ {
        Some(LexiconFilter::All)
    } else if name == "csw24"@ {
        Some(LexiconFilter::Csw24)
    } else if name == "nwl23"@ {
        Some(LexiconFilter::Nwl23)
    } else {
        None
    }
}

/// The lexicon filter of a name; nothing for another text.
pub fn parse_lexicon_filter(name: &String) -> (filter: Option<LexiconFilter>)
    ensures
        filter == filter_named(name@),
{
    if *name == "all".to_owned() {
        Some(LexiconFilter::All)
    } else if *name == "csw24".to_owned() {
        Some(LexiconFilter::Csw24)
    } else if *name == "nwl23".to_owned() {
        Some(LexiconFilter::Nwl23)
    } else {
        None
    }
}

/// What is wrong with a command line of two named paths.
#[derive(Clone, Copy, Debug, PartialEq, Eq, Structural)]
pub enum PathFault {
    Odd,
    /// An option with another name, by its place.
    Unsupported(usize),
}

/// Whether an argument is one of two names.
pub open spec fn is_either(text: Seq<char>, first: Seq<char>, second: Seq<char>) -> bool {
    text == first || text == second
}

/// The value behind the last argument with a name, among the first `count` pairs.
pub open spec fn value_behind(arguments: Seq<String>, name: Seq<char>, count: int) -> Option<
    Seq<char>,
>
    decreases count,
{
    if count <= 0 {
        None
    } else if arguments[2 * (count - 1)]@ == name {
        Some(arguments[2 * (count - 1) + 1]@)
    } else {
        value_behind(arguments, name, count - 1)
    }
}

pub open spec fn text_view(text: Option<String>) -> Option<Seq<char>> {
    match text {
        None => None,
        Some(found) => Some(found@),
    }
}

/// Reads two named paths; each may be absent, and the last counts.
pub fn two_paths(arguments: &Vec<String>, first: &str, second: &str) -> (paths: Result<
    (Option<String>, Option<String>),
    PathFault,
>)
    requires
        first@ != second@,
    ensures
        match paths {
            Err(PathFault::Odd) => arguments.len() % 2 != 0,
            Err(PathFault::Unsupported(place)) => {
                &&& arguments.len() % 2 == 0
                &&& place < arguments.len()
                &&& place % 2 == 0
                &&& !is_either(arguments@[place as int]@, first@, second@)
                &&& forall|i: int|
                    0 <= 2 * i < place ==> is_either(
                        (#[trigger] arguments@[2 * i])@,
                        first@,
                        second@,
                    )
            },
            Ok(found) => {
                let count = arguments.len() as int / 2;
                &&& arguments.len() % 2 == 0
                &&& forall|i: int|
                    0 <= i < count ==> is_either((#[trigger] arguments@[2 * i])@, first@, second@)
                &&& text_view(found.0) == value_behind(arguments@, first@, count)
                &&& text_view(found.1) == value_behind(arguments@, second@, count)
            },
        },
{
    if arguments.len() % 2 != 0 {
        return Err(PathFault::Odd);
    }
    let first_name: String = first.to_owned();
    let second_name: String = second.to_owned();
    let mut one: Option<String> = None;
    let mut other: Option<String> = None;
    let count: usize = arguments.len() / 2;
    let mut index: usize = 0;
    while index < count
        invariant
            index <= count,
            arguments.len() == 2 * count,
            first@ != second@,
            first_name@ == first@,
            second_name@ == second@,
            forall|i: int|
                0 <= i < index ==> is_either((#[trigger] arguments@[2 * i])@, first@, second@),
            text_view(one) == value_behind(arguments@, first@, index as int),
            text_view(other) == value_behind(arguments@, second@, index as int),
        decreases count - index,
    {
        if arguments[2 * index] == first_name {
            one = Some(arguments[2 * index + 1].clone());
        } else if arguments[2 * index] == second_name {
            other = Some(arguments[2 * index + 1].clone());
        } else {
            return Err(PathFault::Unsupported(2 * index));
        }
        index += 1;
    }
    Ok((one, other))
}

} // verus!
