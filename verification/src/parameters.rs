//! The parameters of a collection, as its statistics file states them: one
//! number on each line, first the number of terms, the largest string
//! length, the number of completions, the universe and the number of levels,
//! then the number of nodes of each level.
use vstd::prelude::*;
use vstd::string::StringExecFns;
use crate::constants::{MAX_NUM_CHARS_PER_QUERY, MAX_NUM_TERMS_PER_QUERY};
use crate::text::bytes_of;

verus! {

/// The value of a string of decimal digits.
pub open spec fn decimal_value(digits: Seq<u8>) -> nat
    decreases digits.len(),
{
    if digits.len() == 0 {
        0
    } else {
        decimal_value(digits.drop_last()) * 10 + (digits.last() - 0x30) as nat
    }
}

/// Every byte is an ASCII digit.
pub open spec fn all_digits(bytes: Seq<u8>) -> bool {
    forall|i: int| 0 <= i < bytes.len() ==> 0x30 <= #[trigger] bytes[i] <= 0x39
}

/// The digits of a number as it is written: what follows a plus sign, if
/// the bytes start with one, else the bytes.
pub open spec fn digits_of(bytes: Seq<u8>) -> Seq<u8> {
    if bytes.len() > 0 && bytes[0] == 0x2b {
        bytes.skip(1)
    } else {
        bytes
    }
}

/// The number that the bytes state: one or more decimal digits, a plus sign
/// before them or not, whose value fits in 32 bits. Nothing else states a
/// number.
pub open spec fn number_of(bytes: Seq<u8>) -> Option<u32> {
    let digits = digits_of(bytes);
    if digits.len() > 0 && all_digits(digits) && decimal_value(digits) <= u32::MAX {
        Some(decimal_value(digits) as u32)
    } else {
        None
    }
}

/// A longer string of digits has no smaller value than its beginning.
proof fn lemma_value_grows(digits: Seq<u8>, n: int)
    requires
        all_digits(digits),
        0 <= n <= digits.len(),
    ensures
        decimal_value(digits.take(n)) <= decimal_value(digits),
    decreases digits.len() - n,
{
    if n < digits.len() {
        assert(digits.take(n + 1).drop_last() =~= digits.take(n));
        lemma_value_grows(digits, n + 1);
    } else {
        assert(digits.take(n) =~= digits);
    }
}

/// Reads the number that a line states.
pub fn parse_number(line: &str) -> (number: Option<u32>)
    ensures
        number == number_of(bytes_of(line@)),
{
    let bytes = line.as_bytes();
    let start: usize = if bytes.len() > 0 && bytes[0] == 0x2b {
        1
    } else {
        0
    };
    let ghost digits = digits_of(bytes@);
    if start == bytes.len() {
        return None;
    }
    let mut value: u32 = 0;
    let mut i: usize = start;
    assert(digits.take(0) =~= Seq::<u8>::empty());
    while i < bytes.len()
        invariant
            start <= i <= bytes.len(),
            start <= 1,
            bytes@ == bytes_of(line@),
            digits == digits_of(bytes@),
            digits.len() == bytes.len() - start,
            forall|j: int| 0 <= j < digits.len() ==> digits[j] == bytes@[j + start],
            all_digits(digits.take(i - start)),
            value == decimal_value(digits.take(i - start)),
        decreases bytes.len() - i,
    {
        let byte = bytes[i];
        if byte < 0x30 || byte > 0x39 {
            assert(digits[i - start] == byte);
            assert(!all_digits(digits));
            return None;
        }
        let digit = (byte - 0x30) as u32;
        proof {
            assert(digits.take(i + 1 - start).drop_last() =~= digits.take(i - start));
            assert(digits.take(i + 1 - start).last() == byte);
        }
        let ghost next = digits.take(i + 1 - start);
        assert(decimal_value(next) == value * 10 + digit);
        if value > (u32::MAX - digit) / 10 {
            proof {
                assert(value * 10 + digit > u32::MAX);
                if all_digits(digits) {
                    lemma_value_grows(digits, i + 1 - start);
                }
            }
            return None;
        }
        assert(all_digits(next)) by {
            assert forall|j: int| 0 <= j < next.len() implies 0x30 <= #[trigger] next[j]
                <= 0x39 by {
                if j < i - start {
                    assert(digits.take(i - start)[j] == next[j]);
                }
            }
        }
        value = value * 10 + digit;
        i += 1;
    }
    assert(digits.take(i - start) =~= digits);
    Some(value)
}

/// A line of the statistics file, by what it states.
#[derive(Debug, Clone, Copy, PartialEq, Eq)]
pub enum StatsField {
    NumTerms,
    MaxStringLength,
    NumCompletions,
    Universe,
    NumLevels,
    NodesPerLevel,
}

/// Why the statistics could not be loaded.
#[derive(Debug, Clone, Copy, PartialEq, Eq)]
pub enum LoadError {
    /// The file ends before the line of this field.
    Missing(StatsField),
    /// The line of this field does not state a number.
    Malformed(StatsField),
    /// The number of terms is 0.
    NoTerms,
    /// The largest string length is 0.
    NoStringLength,
    /// The number of completions is 0.
    NoCompletions,
    /// The universe is smaller than the number of completions.
    UniverseTooSmall,
    /// The number of levels is 0.
    NoLevels,
    /// The largest string length is over `MAX_NUM_CHARS_PER_QUERY`.
    StringLengthOverLimit,
    /// The number of levels is over `MAX_NUM_TERMS_PER_QUERY`.
    LevelsOverLimit,
}

/// The name of a field as the statistics file's description has it.
pub open spec fn field_name(field: StatsField) -> Seq<char> {
    match field {
        StatsField::NumTerms => "num_terms"@,
        StatsField::MaxStringLength => "max_string_length"@,
        StatsField::NumCompletions => "num_completions"@,
        StatsField::Universe => "universe"@,
        StatsField::NumLevels => "num_levels"@,
        StatsField::NodesPerLevel => "nodes_per_level data"@,
    }
}

/// What a failure says of itself.
pub open spec fn message_of(error: LoadError) -> Seq<char> {
    match error {
        LoadError::Missing(field) => "Missing "@ + field_name(field),
        LoadError::Malformed(field) => "Malformed "@ + field_name(field),
        LoadError::NoTerms => "num_terms must be > 0"@,
        LoadError::NoStringLength => "max_string_length must be > 0"@,
        LoadError::NoCompletions => "num_completions must be > 0"@,
        LoadError::UniverseTooSmall => "universe must be >= num_completions"@,
        LoadError::NoLevels => "num_levels must be > 0"@,
        LoadError::StringLengthOverLimit => "max_string_length exceeds MAX_NUM_CHARS_PER_QUERY"@,
        LoadError::LevelsOverLimit => "num_levels exceeds MAX_NUM_TERMS_PER_QUERY"@,
    }
}

impl StatsField {
    /// The name of the field.
    pub fn name(&self) -> (name: &'static str)
        ensures
            name@ == field_name(*self),
    {
        match self {
            StatsField::NumTerms => "num_terms",
            StatsField::MaxStringLength => "max_string_length",
            StatsField::NumCompletions => "num_completions",
            StatsField::Universe => "universe",
            StatsField::NumLevels => "num_levels",
            StatsField::NodesPerLevel => "nodes_per_level data",
        }
    }
}

impl LoadError {
    /// What the failure says of itself.
    pub fn message(&self) -> (message: String)
        ensures
            message@ == message_of(*self),
    {
        match self {
            LoadError::Missing(field) => String::from_str("Missing ").concat(field.name()),
            LoadError::Malformed(field) => String::from_str("Malformed ").concat(field.name()),
            LoadError::NoTerms => String::from_str("num_terms must be > 0"),
            LoadError::NoStringLength => String::from_str("max_string_length must be > 0"),
            LoadError::NoCompletions => String::from_str("num_completions must be > 0"),
            LoadError::UniverseTooSmall => String::from_str("universe must be >= num_completions"),
            LoadError::NoLevels => String::from_str("num_levels must be > 0"),
            LoadError::StringLengthOverLimit => String::from_str(
                "max_string_length exceeds MAX_NUM_CHARS_PER_QUERY",
            ),
            LoadError::LevelsOverLimit => String::from_str(
                "num_levels exceeds MAX_NUM_TERMS_PER_QUERY",
            ),
        }
    }
}

/// The parameters of a collection.
#[derive(Debug, Default)]
pub struct Parameters {
    pub num_terms: u32,
    pub max_string_length: u32,
    pub num_completions: u32,
    pub universe: u32,
    pub num_levels: u32,
    pub nodes_per_level: Vec<u32>,
    pub collection_basename: String,
}

/// The number on line `at`, or why there is none.
pub open spec fn field_of(lines: Seq<String>, at: int, field: StatsField) -> Result<
    u32,
    LoadError,
> {
    if at >= lines.len() {
        Err(LoadError::Missing(field))
    } else {
        match number_of(bytes_of(lines[at]@)) {
            Some(number) => Ok(number),
            None => Err(LoadError::Malformed(field)),
        }
    }
}

/// The first rule that the five numbers break, if they break one.
pub open spec fn broken_rule(
    num_terms: u32,
    max_string_length: u32,
    num_completions: u32,
    universe: u32,
    num_levels: u32,
) -> Option<LoadError> {
    if num_terms == 0 {
        Some(LoadError::NoTerms)
    } else if max_string_length == 0 {
        Some(LoadError::NoStringLength)
    } else if num_completions == 0 {
        Some(LoadError::NoCompletions)
    } else if universe < num_completions {
        Some(LoadError::UniverseTooSmall)
    } else if num_levels == 0 {
        Some(LoadError::NoLevels)
    } else if max_string_length > MAX_NUM_CHARS_PER_QUERY {
        Some(LoadError::StringLengthOverLimit)
    } else if num_levels > MAX_NUM_TERMS_PER_QUERY {
        Some(LoadError::LevelsOverLimit)
    } else {
        None
    }
}

/// The field that line `at` of the first five states.
pub open spec fn header_field(at: int) -> StatsField {
    if at == 0 {
        StatsField::NumTerms
    } else if at == 1 {
        StatsField::MaxStringLength
    } else if at == 2 {
        StatsField::NumCompletions
    } else if at == 3 {
        StatsField::Universe
    } else {
        StatsField::NumLevels
    }
}

/// The number on line `at` of the first five, or why there is none.
pub open spec fn header_of(lines: Seq<String>, at: int) -> Result<u32, LoadError> {
    field_of(lines, at, header_field(at))
}

/// How many of the first `upto` lines state their number, counted up to
/// the first that is missing or malformed.
pub open spec fn headers_read(lines: Seq<String>, upto: int) -> int
    decreases upto,
{
    if upto <= 0 {
        0
    } else if headers_read(lines, upto - 1) == upto - 1 && header_of(lines, upto - 1) is Ok {
        upto
    } else {
        headers_read(lines, upto - 1)
    }
}

/// The numbers of nodes of the levels up to level `upto`, read up to the
/// first level line that is missing or malformed.
pub open spec fn levels_read(lines: Seq<String>, upto: int) -> Seq<u32>
    decreases upto,
{
    if upto <= 0 {
        Seq::empty()
    } else {
        let before = levels_read(lines, upto - 1);
        match field_of(lines, 5 + upto - 1, StatsField::NodesPerLevel) {
            Ok(number) => if before.len() == upto - 1 {
                before.push(number)
            } else {
                before
            },
            Err(_) => before,
        }
    }
}

/// What loading the lines ends in: the failure of the first of the five
/// lines that is missing or malformed; else the first rule that the five
/// numbers break; else the failure of the first level line that is missing
/// or malformed; else success.
pub open spec fn load_outcome(lines: Seq<String>) -> Result<(), LoadError> {
    let read = headers_read(lines, 5);
    if read < 5 {
        Err(header_of(lines, read)->Err_0)
    } else {
        match broken_rule(
            header_of(lines, 0)->Ok_0,
            header_of(lines, 1)->Ok_0,
            header_of(lines, 2)->Ok_0,
            header_of(lines, 3)->Ok_0,
            header_of(lines, 4)->Ok_0,
        ) {
            Some(e) => Err(e),
            None => {
                let levels = header_of(lines, 4)->Ok_0 as int;
                let read = levels_read(lines, levels).len() as int;
                if read < levels {
                    Err(field_of(lines, 5 + read, StatsField::NodesPerLevel)->Err_0)
                } else {
                    Ok(())
                }
            },
        }
    }
}

/// Whether loading the lines gets as far as the level lines.
pub open spec fn reaches_levels(lines: Seq<String>) -> bool {
    headers_read(lines, 5) == 5 && broken_rule(
        header_of(lines, 0)->Ok_0,
        header_of(lines, 1)->Ok_0,
        header_of(lines, 2)->Ok_0,
        header_of(lines, 3)->Ok_0,
        header_of(lines, 4)->Ok_0,
    ) is None
}

/// How many of the five lines are read: as many as come before the first
/// that is missing or malformed.
proof fn lemma_headers_read(lines: Seq<String>)
    ensures
        headers_read(lines, 5) == if header_of(lines, 0) is Err {
            0int
        } else if header_of(lines, 1) is Err {
            1int
        } else if header_of(lines, 2) is Err {
            2int
        } else if header_of(lines, 3) is Err {
            3int
        } else if header_of(lines, 4) is Err {
            4int
        } else {
            5int
        },
{
    reveal_with_fuel(headers_read, 6);
}

/// What the level lines give stays what it is once a line is found
/// missing or malformed.
proof fn lemma_levels_stay(lines: Seq<String>, upto: int, more: int)
    requires
        0 <= upto <= more,
        levels_read(lines, upto).len() < upto,
    ensures
        levels_read(lines, more) == levels_read(lines, upto),
    decreases more - upto,
{
    if upto < more {
        lemma_levels_stay(lines, upto, more - 1);
    }
}

/// No more levels are read than are looked at.
proof fn lemma_levels_bound(lines: Seq<String>, upto: int)
    requires
        0 <= upto,
    ensures
        levels_read(lines, upto).len() <= upto,
    decreases upto,
{
    if upto > 0 {
        lemma_levels_bound(lines, upto - 1);
    }
}

impl Parameters {
    /// Creates parameters that are all 0, with no levels and no name.
    pub fn new() -> (parameters: Self)
        ensures
            parameters.num_terms == 0,
            parameters.max_string_length == 0,
            parameters.num_completions == 0,
            parameters.universe == 0,
            parameters.num_levels == 0,
            parameters.nodes_per_level@ == Seq::<u32>::empty(),
            parameters.collection_basename@ == Seq::<char>::empty(),
    {
        Self {
            num_terms: 0,
            max_string_length: 0,
            num_completions: 0,
            universe: 0,
            num_levels: 0,
            nodes_per_level: Vec::new(),
            collection_basename: String::new(),
        }
    }

    /// Reads the number on line `at`.
    fn read_field(lines: &[String], at: usize, field: StatsField) -> (number: Result<
        u32,
        LoadError,
    >)
        ensures
            number == field_of(lines@, at as int, field),
    {
        if at >= lines.len() {
            return Err(LoadError::Missing(field));
        }
        match parse_number(lines[at].as_str()) {
            Some(number) => Ok(number),
            None => Err(LoadError::Malformed(field)),
        }
    }

    /// Loads the parameters from the lines of a statistics file. The five
    /// numbers are read and stored one after the other, up to the first
    /// that is missing or malformed; then the rules are checked, zero
    /// counts first and the limits after them; then the number of nodes of
    /// each level is read and stored, up to the first that is missing or
    /// malformed. What was stored before a failure stays stored.
    #[verifier::loop_isolation(false)]
    pub fn load(&mut self, lines: &[String]) -> (done: Result<(), LoadError>)
        ensures
            done == load_outcome(lines@),
            final(self).collection_basename == old(self).collection_basename,
            final(self).num_terms == if headers_read(lines@, 5) > 0 {
                header_of(lines@, 0)->Ok_0
            } else {
                old(self).num_terms
            },
            final(self).max_string_length == if headers_read(lines@, 5) > 1 {
                header_of(lines@, 1)->Ok_0
            } else {
                old(self).max_string_length
            },
            final(self).num_completions == if headers_read(lines@, 5) > 2 {
                header_of(lines@, 2)->Ok_0
            } else {
                old(self).num_completions
            },
            final(self).universe == if headers_read(lines@, 5) > 3 {
                header_of(lines@, 3)->Ok_0
            } else {
                old(self).universe
            },
            final(self).num_levels == if headers_read(lines@, 5) > 4 {
                header_of(lines@, 4)->Ok_0
            } else {
                old(self).num_levels
            },
            final(self).nodes_per_level@ == if reaches_levels(lines@) {
                levels_read(lines@, header_of(lines@, 4)->Ok_0 as int)
            } else {
                old(self).nodes_per_level@
            },
    {
        proof {
            lemma_headers_read(lines@);
            lemma_levels_bound(lines@, 0);
        }
        self.num_terms = match Self::read_field(lines, 0, StatsField::NumTerms) {
            Ok(number) => number,
            Err(e) => {
                return Err(e);
            },
        };
        self.max_string_length = match Self::read_field(lines, 1, StatsField::MaxStringLength) {
            Ok(number) => number,
            Err(e) => {
                return Err(e);
            },
        };
        self.num_completions = match Self::read_field(lines, 2, StatsField::NumCompletions) {
            Ok(number) => number,
            Err(e) => {
                return Err(e);
            },
        };
        self.universe = match Self::read_field(lines, 3, StatsField::Universe) {
            Ok(number) => number,
            Err(e) => {
                return Err(e);
            },
        };
        self.num_levels = match Self::read_field(lines, 4, StatsField::NumLevels) {
            Ok(number) => number,
            Err(e) => {
                return Err(e);
            },
        };
        if self.num_terms == 0 {
            return Err(LoadError::NoTerms);
        }
        if self.max_string_length == 0 {
            return Err(LoadError::NoStringLength);
        }
        if self.num_completions == 0 {
            return Err(LoadError::NoCompletions);
        }
        if self.universe < self.num_completions {
            return Err(LoadError::UniverseTooSmall);
        }
        if self.num_levels == 0 {
            return Err(LoadError::NoLevels);
        }
        if self.max_string_length > MAX_NUM_CHARS_PER_QUERY {
            return Err(LoadError::StringLengthOverLimit);
        }
        if self.num_levels > MAX_NUM_TERMS_PER_QUERY {
            return Err(LoadError::LevelsOverLimit);
        }
        let levels = self.num_levels;
        let mut nodes: Vec<u32> = Vec::new();
        let mut failure: Option<LoadError> = None;
        let mut level: u32 = 0;
        while level < levels && failure.is_none()
            invariant
                level <= levels <= MAX_NUM_TERMS_PER_QUERY,
                nodes@.len() == level,
                nodes@ == levels_read(lines@, level as int),
                match failure {
                    Some(e) => level < levels && field_of(
                        lines@,
                        5 + level,
                        StatsField::NodesPerLevel,
                    ) == Err::<u32, LoadError>(e),
                    None => true,
                },
            decreases levels - level + if failure is None { 1int } else { 0int },
        {
            match Self::read_field(lines, 5 + level as usize, StatsField::NodesPerLevel) {
                Ok(number) => {
                    nodes.push(number);
                    level += 1;
                },
                Err(e) => {
                    failure = Some(e);
                },
            }
        }
        proof {
            if failure is Some {
                assert(levels_read(lines@, level + 1) == nodes@);
                lemma_levels_stay(lines@, level + 1, levels as int);
            }
        }
        self.nodes_per_level = nodes;
        match failure {
            Some(e) => Err(e),
            None => Ok(()),
        }
    }
}


} // verus!
