//! The options that the engine offers, and the command that sets one:
//! `setoption name <name> [value <value>]`.

use vstd::prelude::*;
use crate::text::{
    join_words, joined, parse_i64, push_text, read_i64, same_ignoring_case, same_letters,
    same_text, texts_view,
};

verus! {

/// What kind of value an option has.
#[derive(Debug, Copy, Clone, PartialEq, Eq, Structural)]
pub enum OptionKind {
    /// A whole number within limits.
    Int,
    /// Zero for no, one for yes.
    Bool,
    /// No value: setting the option makes something happen.
    Button,
}

/// One option of the engine.
pub struct UciOption {
    pub kind: OptionKind,
    pub name: String,
    pub value: i64,
    pub value_min: i64,
    pub value_max: i64,
}

/// Why a command that sets an option was refused.
#[derive(Debug, Copy, Clone, PartialEq, Eq, Structural)]
pub enum OptionError {
    /// The command has fewer than three words, or its second is not `name`.
    BadSyntax,
    /// There is no option of this name.
    UnknownOption,
    /// The option needs a value and the command gives none.
    ValueMissing,
    /// The value is no number, nor `true` or `false`.
    BadNumber,
    /// The number lies outside the option's limits.
    OutOfRange,
    /// The value of a yes-or-no option is neither zero nor one.
    BadBool,
}

/// An option, by its place among the options, and the value that it gets.
#[derive(Debug, Copy, Clone, PartialEq, Eq, Structural)]
pub struct Assignment {
    pub index: usize,
    pub value: i64,
}

impl UciOption {
    /// An option whose value is a whole number from `value_min` to `value_max`.
    pub fn new_int(name: &str, default: i64, value_min: i64, value_max: i64) -> (option: UciOption)
        ensures
            option.kind == OptionKind::Int,
            option.name@ == name@,
            option.value == default,
            option.value_min == value_min,
            option.value_max == value_max,
    {
        let mut text = String::new();
        push_text(&mut text, name);
        UciOption { kind: OptionKind::Int, name: text, value: default, value_min, value_max }
    }

    /// An option without a value.
    pub fn new_button(name: &str) -> (option: UciOption)
        ensures
            option.kind == OptionKind::Button,
            option.name@ == name@,
            option.value == 0,
            option.value_min == 0,
            option.value_max == 0,
    {
        let mut text = String::new();
        push_text(&mut text, name);
        UciOption { kind: OptionKind::Button, name: text, value: 0, value_min: 0, value_max: 0 }
    }
}

/// The options of the engine with their first values: the number of
/// threads, the size of the hash table in megabytes, and the button that
/// clears the table.
pub fn default_options() -> (options: Vec<UciOption>)
    ensures
        options@.len() == 3,
        options@[0].kind == OptionKind::Int && options@[0].name@ == "Threads"@ && options@[0].value
            == 8 && options@[0].value_min == 1 && options@[0].value_max == 256,
        options@[1].kind == OptionKind::Int && options@[1].name@ == "Hash"@ && options@[1].value
            == 100 && options@[1].value_min == 1 && options@[1].value_max == 65536,
        options@[2].kind == OptionKind::Button && options@[2].name@ == "Clear Hash"@,
{
    let mut options: Vec<UciOption> = Vec::new();
    options.push(UciOption::new_int("Threads", 8, 1, 256));
    options.push(UciOption::new_int("Hash", 100, 1, 65536));
    options.push(UciOption::new_button("Clear Hash"));
    options
}

/// The place of the first of the words from place `from` on that is `word`,
/// or the number of the words where none is.
pub open spec fn word_at(parts: Seq<Seq<char>>, word: Seq<char>, from: int) -> int
    decreases parts.len() - from,
{
    if from >= parts.len() {
        parts.len() as int
    } else if parts[from] == word {
        from
    } else {
        word_at(parts, word, from + 1)
    }
}

/// The place of the first of the words from place `from` on that is `word`,
/// or the number of the words where none is.
pub fn find_word(parts: &Vec<String>, word: &str, from: usize) -> (place: usize)
    requires
        from <= parts@.len(),
    ensures
        place == word_at(texts_view(parts), word@, from as int),
        from <= place <= parts@.len(),
    decreases parts@.len() - from,
{
    if from >= parts.len() {
        parts.len()
    } else if same_text(parts[from].as_str(), word) {
        from
    } else {
        find_word(parts, word, from + 1)
    }
}

/// The name of the option in a command: its words from the third up to the
/// word `value`, with one space between each two.
pub open spec fn option_name(parts: Seq<Seq<char>>) -> Seq<char> {
    if parts.len() < 2 {
        Seq::empty()
    } else {
        joined(parts.subrange(2, word_at(parts, "value"@, 2)))
    }
}

/// The value in a command: its words after the word `value`, with one space
/// between each two. Empty where the command has no such word.
pub open spec fn option_value(parts: Seq<Seq<char>>) -> Seq<char> {
    if parts.len() < 2 || word_at(parts, "value"@, 2) >= parts.len() {
        Seq::empty()
    } else {
        joined(parts.subrange(word_at(parts, "value"@, 2) + 1, parts.len() as int))
    }
}

/// The name of the option in a command.
pub fn option_name_text(parts: &Vec<String>) -> (name: String)
    ensures
        name@ == option_name(texts_view(parts)),
{
    if parts.len() < 2 {
        return String::new();
    }
    let end = find_word(parts, "value", 2);
    join_words(parts, 2, end)
}

/// The value in a command.
pub fn option_value_text(parts: &Vec<String>) -> (value: String)
    ensures
        value@ == option_value(texts_view(parts)),
{
    if parts.len() < 2 {
        return String::new();
    }
    let end = find_word(parts, "value", 2);
    if end >= parts.len() {
        return String::new();
    }
    join_words(parts, end + 1, parts.len())
}

/// The place of the first of the options from place `from` on whose name is
/// `name` but for capital and small letters, or the number of the options
/// where none has it.
pub open spec fn option_at(options: Seq<UciOption>, name: Seq<char>, from: int) -> int
    decreases options.len() - from,
{
    if from >= options.len() {
        options.len() as int
    } else if same_letters(options[from].name@, name) {
        from
    } else {
        option_at(options, name, from + 1)
    }
}

/// Where an option is looked for from, there or after it is found.
pub proof fn lemma_option_at(options: Seq<UciOption>, name: Seq<char>, from: int)
    requires
        0 <= from <= options.len(),
    ensures
        from <= option_at(options, name, from) <= options.len(),
    decreases options.len() - from,
{
    if from < options.len() && !same_letters(options[from].name@, name) {
        lemma_option_at(options, name, from + 1);
    }
}

/// The place of the first option from place `from` on with the name `name`.
pub fn find_option(options: &Vec<UciOption>, name: &str, from: usize) -> (place: usize)
    requires
        from <= options@.len(),
    ensures
        place == option_at(options@, name@, from as int),
        from <= place <= options@.len(),
    decreases options@.len() - from,
{
    if from >= options.len() {
        options.len()
    } else if same_ignoring_case(options[from].name.as_str(), name) {
        from
    } else {
        find_option(options, name, from + 1)
    }
}

/// The place of the first of the options from place `from` on whose name is
/// `name` letter for letter, or the number of the options where none has it.
pub open spec fn named_at(options: Seq<UciOption>, name: Seq<char>, from: int) -> int
    decreases options.len() - from,
{
    if from >= options.len() {
        options.len() as int
    } else if options[from].name@ == name {
        from
    } else {
        named_at(options, name, from + 1)
    }
}

/// The value of the first option named `name`, letter for letter; none
/// where no option has the name.
pub fn get_option_val(options: &Vec<UciOption>, name: &str) -> (value: Option<i64>)
    ensures
        value == if named_at(options@, name@, 0) < options@.len() {
            Some(options@[named_at(options@, name@, 0)].value)
        } else {
            None
        },
{
    let mut i: usize = 0;
    while i < options.len()
        invariant
            i <= options@.len(),
            named_at(options@, name@, i as int) == named_at(options@, name@, 0),
        decreases options@.len() - i,
    {
        if same_text(options[i].name.as_str(), name) {
            return Some(options[i].value);
        }
        i += 1;
    }
    None
}

/// The number that a value writes: zero for `false` and one for `true`, in
/// capital or small letters, else the number in decimal digits.
pub open spec fn written_value(text: Seq<char>) -> Option<i64> {
    if same_letters(text, "false"@) {
        Some(0i64)
    } else if same_letters(text, "true"@) {
        Some(1i64)
    } else {
        parse_i64(text)
    }
}

/// The number that a value writes.
pub fn read_value(text: &str) -> (value: Option<i64>)
    ensures
        value == written_value(text@),
{
    if same_ignoring_case(text, "false") {
        Some(0)
    } else if same_ignoring_case(text, "true") {
        Some(1)
    } else {
        read_i64(text)
    }
}

/// The value that the option `option` gets from the text `text`, or why it
/// gets none. A button takes any text, and zero where it writes no number.
pub open spec fn assigned(option: &UciOption, text: Seq<char>) -> Result<i64, OptionError> {
    match option.kind {
        OptionKind::Button => Ok(
            match written_value(text) {
                Some(value) => value,
                None => 0i64,
            },
        ),
        OptionKind::Int => if text.len() == 0 {
            Err(OptionError::ValueMissing)
        } else {
            match written_value(text) {
                None => Err(OptionError::BadNumber),
                Some(value) => if value < option.value_min || value > option.value_max {
                    Err(OptionError::OutOfRange)
                } else {
                    Ok(value)
                },
            }
        },
        OptionKind::Bool => if text.len() == 0 {
            Err(OptionError::ValueMissing)
        } else {
            match written_value(text) {
                None => Err(OptionError::BadNumber),
                Some(value) => if value < 0 || value > 1 {
                    Err(OptionError::BadBool)
                } else {
                    Ok(value)
                },
            }
        },
    }
}

/// The value that the option `option` gets from the text `text`.
pub fn assign(option: &UciOption, text: &str) -> (value: Result<i64, OptionError>)
    ensures
        value == assigned(option, text@),
{
    let is_button = match option.kind {
        OptionKind::Button => true,
        _ => false,
    };
    if !is_button && text.unicode_len() == 0 {
        return Err(OptionError::ValueMissing);
    }
    let value: i64 = match read_value(text) {
        Some(value) => value,
        None => {
            if is_button {
                0
            } else {
                return Err(OptionError::BadNumber);
            }
        },
    };
    match option.kind {
        OptionKind::Int => {
            if value < option.value_min || value > option.value_max {
                return Err(OptionError::OutOfRange);
            }
        },
        OptionKind::Bool => {
            if value < 0 || value > 1 {
                return Err(OptionError::BadBool);
            }
        },
        OptionKind::Button => {},
    }
    Ok(value)
}

/// What the command `parts` sets among the options `options`: the first
/// option of the name it gives, and the value it gives; or why it sets
/// nothing.
pub open spec fn spec_setoption(parts: Seq<Seq<char>>, options: Seq<UciOption>) -> Result<
    Assignment,
    OptionError,
> {
    if parts.len() < 3 || parts[1] != "name"@ {
        Err(OptionError::BadSyntax)
    } else if option_at(options, option_name(parts), 0) >= options.len() {
        Err(OptionError::UnknownOption)
    } else {
        match assigned(&options[option_at(options, option_name(parts), 0)], option_value(parts)) {
            Ok(value) => Ok(
                (Assignment {
                    index: option_at(options, option_name(parts), 0) as usize,
                    value,
                }),
            ),
            Err(error) => Err(error),
        }
    }
}

/// Reads the command `setoption name <name> [value <value>]`, given as its
/// words, against the options `options`.
pub fn read_setoption(parts: &Vec<String>, options: &Vec<UciOption>) -> (found: Result<
    Assignment,
    OptionError,
>)
    ensures
        found == spec_setoption(texts_view(parts), options@),
{
    if parts.len() < 3 || !same_text(parts[1].as_str(), "name") {
        return Err(OptionError::BadSyntax);
    }
    let name = option_name_text(parts);
    let value_text = option_value_text(parts);
    let index = find_option(options, name.as_str(), 0);
    if index >= options.len() {
        return Err(OptionError::UnknownOption);
    }
    match assign(&options[index], value_text.as_str()) {
        Ok(value) => Ok(Assignment { index, value }),
        Err(error) => Err(error),
    }
}

/// Carries out the command `setoption name <name> [value <value>]`: the
/// option it names gets the value it gives. Where the command is refused,
/// the options stay as they are.
pub fn set_option(parts: &Vec<String>, options: &mut Vec<UciOption>) -> (found: Result<
    Assignment,
    OptionError,
>)
    ensures
        found == spec_setoption(texts_view(parts), old(options)@),
        final(options)@.len() == old(options)@.len(),
        forall|i: int|
            0 <= i < old(options)@.len() ==> {
                &&& (#[trigger] final(options)@[i]).kind == old(options)@[i].kind
                &&& final(options)@[i].name == old(options)@[i].name
                &&& final(options)@[i].value_min == old(options)@[i].value_min
                &&& final(options)@[i].value_max == old(options)@[i].value_max
                &&& final(options)@[i].value == match found {
                    Ok(set) if set.index == i => set.value,
                    _ => old(options)@[i].value,
                }
            },
{
    let found = read_setoption(parts, options);
    match found {
        Ok(set) => {
            proof {
                lemma_option_at(options@, option_name(texts_view(parts)), 0);
            }
            options[set.index].value = set.value;
        },
        Err(_) => {},
    }
    found
}

} // verus!
