//! The text form of a configuration: lines of `key: value`.

use crate::data_structures::pseudo_float::{PseudoFloat, SCALE};
use crate::neat::config::{activation_named, ActivationFunction, Config, ConfigError};
use vstd::prelude::*;
use vstd::string::StringSliceAdditionalSpecFns;

verus! {

/// The parameters that a text can set.
#[derive(Clone, Copy, Debug, PartialEq, Eq, Structural)]
pub enum ConfigKey {
    /// `mult_disjoint`
    MultDisjoint,
    /// `mult_excess`
    MultExcess,
    /// `mult_weight_diff`
    MultWeightDiff,
    /// `weight_shift_strength`
    WeightShiftStrength,
    /// `weight_random_strength`
    WeightRandomStrength,
    /// `prob_mutate_link`
    ProbMutateLink,
    /// `prob_mutate_node`
    ProbMutateNode,
    /// `prob_mutate_weight_shift`
    ProbMutateWeightShift,
    /// `prob_mutate_weight_random`
    ProbMutateWeightRandom,
    /// `prob_mutate_toggle_link`
    ProbMutateToggleLink,
    /// `species_threshold`
    SpeciesThreshold,
    /// `kill_percentage`
    KillPercentage,
    /// `activation`
    Activation,
}

/// The parameter that `name` names, in lower case.
pub open spec fn key_named(name: Seq<u8>) -> Option<ConfigKey> {
    if name == "mult_disjoint".spec_bytes() {
        Some(ConfigKey::MultDisjoint)
    } else if name == "mult_excess".spec_bytes() {
        Some(ConfigKey::MultExcess)
    } else if name == "mult_weight_diff".spec_bytes() {
        Some(ConfigKey::MultWeightDiff)
    } else if name == "weight_shift_strength".spec_bytes() {
        Some(ConfigKey::WeightShiftStrength)
    } else if name == "weight_random_strength".spec_bytes() {
        Some(ConfigKey::WeightRandomStrength)
    } else if name == "prob_mutate_link".spec_bytes() {
        Some(ConfigKey::ProbMutateLink)
    } else if name == "prob_mutate_node".spec_bytes() {
        Some(ConfigKey::ProbMutateNode)
    } else if name == "prob_mutate_weight_shift".spec_bytes() {
        Some(ConfigKey::ProbMutateWeightShift)
    } else if name == "prob_mutate_weight_random".spec_bytes() {
        Some(ConfigKey::ProbMutateWeightRandom)
    } else if name == "prob_mutate_toggle_link".spec_bytes() {
        Some(ConfigKey::ProbMutateToggleLink)
    } else if name == "species_threshold".spec_bytes() {
        Some(ConfigKey::SpeciesThreshold)
    } else if name == "kill_percentage".spec_bytes() {
        Some(ConfigKey::KillPercentage)
    } else if name == "activation".spec_bytes() {
        Some(ConfigKey::Activation)
    } else {
        None
    }
}

/// The configuration with the number `value` for the parameter `key`.
/// The activation is no number and stays.
pub open spec fn with_number(config: Config, key: ConfigKey, value: PseudoFloat) -> Config {
    match key {
        ConfigKey::MultDisjoint => Config { mult_disjoint: value, ..config },
        ConfigKey::MultExcess => Config { mult_excess: value, ..config },
        ConfigKey::MultWeightDiff => Config { mult_weight_diff: value, ..config },
        ConfigKey::WeightShiftStrength => Config { weight_shift_strength: value, ..config },
        ConfigKey::WeightRandomStrength => Config { weight_random_strength: value, ..config },
        ConfigKey::ProbMutateLink => Config { prob_mutate_link: value, ..config },
        ConfigKey::ProbMutateNode => Config { prob_mutate_node: value, ..config },
        ConfigKey::ProbMutateWeightShift => Config { prob_mutate_weight_shift: value, ..config },
        ConfigKey::ProbMutateWeightRandom => Config { prob_mutate_weight_random: value, ..config },
        ConfigKey::ProbMutateToggleLink => Config { prob_mutate_toggle_link: value, ..config },
        ConfigKey::SpeciesThreshold => Config { species_threshold: value, ..config },
        ConfigKey::KillPercentage => Config { kill_percentage: value, ..config },
        ConfigKey::Activation => config,
    }
}

/// The byte in lower case, where it is a capital letter of the alphabet
/// from A to Z.
pub open spec fn lowered(byte: u8) -> u8 {
    if 65 <= byte <= 90 {
        (byte + 32) as u8
    } else {
        byte
    }
}

/// The bytes of `text` from `from` up to `to`.
pub open spec fn part(text: Seq<u8>, from: int, to: int) -> Seq<u8> {
    text.subrange(from, to)
}

/// The bytes of `text` from `from` up to `to`, in lower case.
pub open spec fn lowered_part(text: Seq<u8>, from: int, to: int) -> Seq<u8> {
    Seq::new((to - from) as nat, |i: int| lowered(text[from + i]))
}

/// The place of the first line feed of `text` from `from` on, or the
/// length of `text`.
pub open spec fn line_end(text: Seq<u8>, from: int) -> int
    decreases text.len() - from,
{
    if from >= text.len() {
        text.len() as int
    } else if text[from] == 10 {
        from
    } else {
        line_end(text, from + 1)
    }
}

/// The place of the first colon with a blank behind it between `from`
/// and `limit`, or `limit`.
pub open spec fn token_end(text: Seq<u8>, from: int, limit: int) -> int
    decreases limit - from,
{
    if from >= limit {
        limit
    } else if from + 1 < limit && text[from] == 58 && text[from + 1] == 32 {
        from
    } else {
        token_end(text, from + 1, limit)
    }
}

/// Whether the byte is a decimal digit.
pub open spec fn is_digit(byte: u8) -> bool {
    48 <= byte <= 57
}

/// Whether the bytes from `from` up to `to` are decimal digits.
pub open spec fn all_digits(text: Seq<u8>, from: int, to: int) -> bool {
    forall|i: int| from <= i < to ==> is_digit(#[trigger] text[i])
}

/// The number that the decimal digits from `from` up to `to` spell.
pub open spec fn digits_value(text: Seq<u8>, from: int, to: int) -> int
    decreases to - from,
{
    if to <= from {
        0
    } else {
        digits_value(text, from, to - 1) * 10 + (text[to - 1] - 48)
    }
}

/// The units that the decimal digits from `from` up to `to` spell behind
/// a decimal point, the first digit counting `scale` units. Digits
/// behind the ninth count nothing.
pub open spec fn fraction_value(text: Seq<u8>, from: int, to: int, scale: int) -> int
    decreases to - from,
{
    if from >= to || scale <= 0 {
        0
    } else {
        (text[from] - 48) * scale + fraction_value(text, from + 1, to, scale / 10)
    }
}

/// The place of the first decimal point between `from` and `to`, or
/// `to`.
pub open spec fn point_place(text: Seq<u8>, from: int, to: int) -> int
    decreases to - from,
{
    if from >= to {
        to
    } else if text[from] == 46 {
        from
    } else {
        point_place(text, from + 1, to)
    }
}

/// The number, in units, that the bytes from `from` up to `to` spell: an
/// optional sign, digits, and optionally a point and more digits, with
/// at least one digit in all. Nothing where they spell no such number,
/// or one that is out of range.
pub open spec fn number_value(text: Seq<u8>, from: int, to: int) -> Option<int> {
    let signed = from < to && (text[from] == 45 || text[from] == 43);
    let negative = from < to && text[from] == 45;
    let start = if signed {
        from + 1
    } else {
        from
    };
    let point = point_place(text, start, to);
    let behind = if point < to {
        point + 1
    } else {
        to
    };
    let magnitude = digits_value(text, start, point) * SCALE + fraction_value(
        text,
        behind,
        to,
        100_000_000,
    );
    if !all_digits(text, start, point) || !all_digits(text, behind, to) || (point - start) + (to
        - behind) == 0 || magnitude > i64::MAX {
        None
    } else if negative {
        Some(-magnitude)
    } else {
        Some(magnitude)
    }
}

/// The configuration after the value from `from` up to `to` was given
/// to the parameter `key`, or why the value cannot be given.
pub open spec fn with_value(
    config: Config,
    key: ConfigKey,
    text: Seq<u8>,
    from: int,
    to: int,
) -> Result<Config, ConfigError> {
    if key == ConfigKey::Activation {
        match activation_named(part(text, from, to)) {
            Some(activation) => Ok(Config { activation, ..config }),
            None => Err(ConfigError::UnknownActivation),
        }
    } else {
        match number_value(text, from, to) {
            Some(units) => Ok(with_number(config, key, PseudoFloat { units: units as i64 })),
            None => Err(ConfigError::InvalidNumber),
        }
    }
}

/// The place of the parameter among the thirteen parameters.
pub open spec fn key_place(key: ConfigKey) -> int {
    match key {
        ConfigKey::MultDisjoint => 0,
        ConfigKey::MultExcess => 1,
        ConfigKey::MultWeightDiff => 2,
        ConfigKey::WeightShiftStrength => 3,
        ConfigKey::WeightRandomStrength => 4,
        ConfigKey::ProbMutateLink => 5,
        ConfigKey::ProbMutateNode => 6,
        ConfigKey::ProbMutateWeightShift => 7,
        ConfigKey::ProbMutateWeightRandom => 8,
        ConfigKey::ProbMutateToggleLink => 9,
        ConfigKey::SpeciesThreshold => 10,
        ConfigKey::KillPercentage => 11,
        ConfigKey::Activation => 12,
    }
}

/// What has been read of a text: the configuration so far, and which of
/// the thirteen parameters were given a value, by their places.
pub struct Reading {
    /// The configuration so far.
    pub config: Config,
    /// Whether the parameter at each place was given a value.
    pub given: Seq<bool>,
}

/// Nothing read yet: every number zero and no parameter given.
pub open spec fn nothing_read() -> Reading {
    Reading { config: Config::zeroed(), given: Seq::new(13, |i: int| false) }
}

/// Whether every one of the thirteen parameters was given a value.
pub open spec fn complete(given: Seq<bool>) -> bool {
    given.len() == 13 && forall|i: int| 0 <= i < 13 ==> given[i]
}

/// What has been read after the line from `from` up to `limit` was
/// read, or why it cannot be read. The line is cut at every colon with a
/// blank behind it. An empty piece is passed over. Any other piece
/// names, in upper or lower case, a parameter, and the piece behind it
/// is the value of that parameter, which then counts as given.
pub open spec fn parse_tokens(reading: Reading, text: Seq<u8>, from: int, limit: int) -> Result<
    Reading,
    ConfigError,
>
    decreases limit - from,
{
    let end = token_end(text, from, limit);
    if from > limit || end < from {
        Ok(reading)
    } else if end == from {
        if end + 2 > limit {
            Ok(reading)
        } else {
            parse_tokens(reading, text, end + 2, limit)
        }
    } else {
        match key_named(lowered_part(text, from, end)) {
            None => Err(ConfigError::UnknownKey),
            Some(key) => if end + 2 > limit {
                Err(ConfigError::MissingValue)
            } else {
                let value_end = token_end(text, end + 2, limit);
                match with_value(reading.config, key, text, end + 2, value_end) {
                    Err(error) => Err(error),
                    Ok(changed) => {
                        let read = Reading {
                            config: changed,
                            given: reading.given.update(key_place(key), true),
                        };
                        if value_end + 2 > limit || value_end < end + 2 {
                            Ok(read)
                        } else {
                            parse_tokens(read, text, value_end + 2, limit)
                        }
                    },
                }
            },
        }
    }
}

/// Where the line that ends at the line feed at `end` ends without the
/// carriage return before the line feed, if there is one.
pub open spec fn line_limit(text: Seq<u8>, from: int, end: int) -> int {
    if end < text.len() && from < end && text[end - 1] == 13 {
        end - 1
    } else {
        end
    }
}

/// What has been read after the lines of `text` from `from` on were
/// read, one after the other, or why a line cannot be read.
#[verifier::opaque]
pub open spec fn parse_lines(reading: Reading, text: Seq<u8>, from: int) -> Result<
    Reading,
    ConfigError,
>
    decreases text.len() - from,
{
    if from < 0 || from >= text.len() {
        Ok(reading)
    } else {
        let end = line_end(text, from);
        if end < from {
            Ok(reading)
        } else {
            match parse_tokens(reading, text, from, line_limit(text, from, end)) {
                Err(error) => Err(error),
                Ok(changed) => if end >= text.len() {
                    Ok(changed)
                } else {
                    parse_lines(changed, text, end + 1)
                },
            }
        }
    }
}

/// The configuration that the bytes of `text` describe, or why they
/// describe none: a line cannot be read, or the lines leave one of the
/// thirteen parameters without a value.
pub open spec fn parse_text(text: Seq<u8>) -> Result<Config, ConfigError> {
    match parse_lines(nothing_read(), text, 0) {
        Err(error) => Err(error),
        Ok(reading) => if complete(reading.given) {
            Ok(reading.config)
        } else {
            Err(ConfigError::MissingKey)
        },
    }
}

/// The line feed is found at or behind the start, and not before.
pub proof fn lemma_line_end(text: Seq<u8>, from: int)
    requires
        0 <= from <= text.len(),
    ensures
        from <= line_end(text, from) <= text.len(),
    decreases text.len() - from,
{
    if from < text.len() && text[from] != 10 {
        lemma_line_end(text, from + 1);
    }
}

/// The end of a piece is found at or behind its start, and not behind
/// the end of the line.
pub proof fn lemma_token_end(text: Seq<u8>, from: int, limit: int)
    requires
        from <= limit,
    ensures
        from <= token_end(text, from, limit) <= limit,
        token_end(text, from, limit) < limit ==> token_end(text, from, limit) + 2 <= limit,
    decreases limit - from,
{
    if from < limit && !(from + 1 < limit && text[from] == 58 && text[from + 1] == 32) {
        lemma_token_end(text, from + 1, limit);
    }
}

/// Finds the first line feed from `from` on.
fn find_line_end(text: &[u8], from: usize) -> (end: usize)
    requires
        from <= text@.len(),
    ensures
        end == line_end(text@, from as int),
        from <= end <= text@.len(),
{
    let mut at: usize = from;
    while at < text.len() && text[at] != 10
        invariant
            from <= at <= text@.len(),
            line_end(text@, from as int) == line_end(text@, at as int),
        decreases text@.len() - at,
    {
        at += 1;
    }
    at
}

/// Finds the first colon with a blank behind it between `from` and
/// `limit`.
fn find_token_end(text: &[u8], from: usize, limit: usize) -> (end: usize)
    requires
        from <= limit <= text@.len(),
    ensures
        end == token_end(text@, from as int, limit as int),
        from <= end <= limit,
        end < limit ==> end + 2 <= limit,
{
    let mut at: usize = from;
    while at < limit && !(at + 1 < limit && text[at] == 58 && text[at + 1] == 32)
        invariant
            from <= at <= limit <= text@.len(),
            token_end(text@, from as int, limit as int) == token_end(
                text@,
                at as int,
                limit as int,
            ),
        decreases limit - at,
    {
        at += 1;
    }
    at
}

/// Whether the bytes from `from` up to `to` spell `word` when they are
/// put in lower case.
fn spells_lowered(text: &[u8], from: usize, to: usize, word: &[u8]) -> (same: bool)
    requires
        from <= to <= text@.len(),
    ensures
        same == (lowered_part(text@, from as int, to as int) == word@),
{
    if to - from != word.len() {
        return false;
    }
    let mut at: usize = 0;
    while at < word.len()
        invariant
            at <= word@.len(),
            from <= to <= text@.len(),
            to - from == word@.len(),
            forall|i: int| 0 <= i < at ==> lowered(text@[from + i]) == word@[i],
        decreases word@.len() - at,
    {
        let byte = text[from + at];
        let small: u8 = if 65 <= byte && byte <= 90 {
            byte + 32
        } else {
            byte
        };
        if small != word[at] {
            assert(lowered_part(text@, from as int, to as int)[at as int] != word@[at as int]);
            return false;
        }
        at += 1;
    }
    assert(lowered_part(text@, from as int, to as int) =~= word@);
    true
}

/// The parameter that the bytes from `from` up to `to` name, in upper
/// or lower case.
pub fn read_key(text: &[u8], from: usize, to: usize) -> (key: Option<ConfigKey>)
    requires
        from <= to <= text@.len(),
    ensures
        key == key_named(lowered_part(text@, from as int, to as int)),
{
    if spells_lowered(text, from, to, "mult_disjoint".as_bytes()) {
        Some(ConfigKey::MultDisjoint)
    } else if spells_lowered(text, from, to, "mult_excess".as_bytes()) {
        Some(ConfigKey::MultExcess)
    } else if spells_lowered(text, from, to, "mult_weight_diff".as_bytes()) {
        Some(ConfigKey::MultWeightDiff)
    } else if spells_lowered(text, from, to, "weight_shift_strength".as_bytes()) {
        Some(ConfigKey::WeightShiftStrength)
    } else if spells_lowered(text, from, to, "weight_random_strength".as_bytes()) {
        Some(ConfigKey::WeightRandomStrength)
    } else if spells_lowered(text, from, to, "prob_mutate_link".as_bytes()) {
        Some(ConfigKey::ProbMutateLink)
    } else if spells_lowered(text, from, to, "prob_mutate_node".as_bytes()) {
        Some(ConfigKey::ProbMutateNode)
    } else if spells_lowered(text, from, to, "prob_mutate_weight_shift".as_bytes()) {
        Some(ConfigKey::ProbMutateWeightShift)
    } else if spells_lowered(text, from, to, "prob_mutate_weight_random".as_bytes()) {
        Some(ConfigKey::ProbMutateWeightRandom)
    } else if spells_lowered(text, from, to, "prob_mutate_toggle_link".as_bytes()) {
        Some(ConfigKey::ProbMutateToggleLink)
    } else if spells_lowered(text, from, to, "species_threshold".as_bytes()) {
        Some(ConfigKey::SpeciesThreshold)
    } else if spells_lowered(text, from, to, "kill_percentage".as_bytes()) {
        Some(ConfigKey::KillPercentage)
    } else if spells_lowered(text, from, to, "activation".as_bytes()) {
        Some(ConfigKey::Activation)
    } else {
        None
    }
}

/// The number that the bytes from `from` up to `to` spell: see
/// [`number_value`].
pub fn read_number(text: &[u8], from: usize, to: usize) -> (number: Option<PseudoFloat>)
    requires
        from <= to <= text@.len(),
    ensures
        number is Some == number_value(text@, from as int, to as int) is Some,
        number is Some ==> number.unwrap()@ == number_value(
            text@,
            from as int,
            to as int,
        ).unwrap(),
{
    let signed = from < to && (text[from] == 45 || text[from] == 43);
    let negative = from < to && text[from] == 45;
    let start: usize = if signed {
        from + 1
    } else {
        from
    };
    let ghost point = point_place(text@, start as int, to as int);
    let ghost behind = if point < to {
        point + 1
    } else {
        to as int
    };
    proof {
        lemma_point_behind(text@, start as int, to as int);
    }
    let whole = match read_whole(text, start, to) {
        None => {
            proof {
                lemma_fraction_bounds(text@, behind, to as int, 100_000_000);
                if all_digits(text@, start as int, point) {
                    assert(digits_value(text@, start as int, point) * SCALE > i64::MAX)
                        by (nonlinear_arith)
                        requires
                            digits_value(text@, start as int, point) >= 9_223_372_037,
                            SCALE == 1_000_000_000,
                    ;
                }
            }
            return None;
        },
        Some(whole) => whole,
    };
    let after: usize = if whole.1 < to {
        whole.1 + 1
    } else {
        to
    };
    let fraction = match read_fraction(text, after, to) {
        None => {
            return None;
        },
        Some(fraction) => fraction,
    };
    if (whole.1 - start) + (to - after) == 0 {
        return None;
    }
    proof {
        assert(whole.0 * SCALE <= 9_223_372_036_000_000_000) by (nonlinear_arith)
            requires
                0 <= whole.0 <= 9_223_372_036,
                SCALE == 1_000_000_000,
        ;
    }
    let magnitude: i128 = whole.0 as i128 * SCALE as i128 + fraction as i128;
    if magnitude > i64::MAX as i128 {
        return None;
    }
    if negative {
        Some(PseudoFloat::new(-(magnitude as i64)))
    } else {
        Some(PseudoFloat::new(magnitude as i64))
    }
}

/// The number that the digits from `start` up to the decimal point
/// spell, and the place of the point; nothing where something else than
/// a digit stands before the point, or the number is too large to be the
/// whole part of a number in range.
fn read_whole(text: &[u8], start: usize, to: usize) -> (whole: Option<(i64, usize)>)
    requires
        start <= to <= text@.len(),
    ensures
        whole is Some ==> {
            &&& whole.unwrap().1 == point_place(text@, start as int, to as int)
            &&& start <= whole.unwrap().1 <= to
            &&& all_digits(text@, start as int, whole.unwrap().1 as int)
            &&& whole.unwrap().0 == digits_value(text@, start as int, whole.unwrap().1 as int)
            &&& 0 <= whole.unwrap().0 <= 9_223_372_036
        },
        whole is None ==> !all_digits(
            text@,
            start as int,
            point_place(text@, start as int, to as int),
        ) || digits_value(text@, start as int, point_place(text@, start as int, to as int))
            > 9_223_372_036,
{
    let ghost point = point_place(text@, start as int, to as int);
    let mut whole: i64 = 0;
    let mut at: usize = start;
    proof {
        lemma_point_behind(text@, start as int, to as int);
    }
    while at < to && text[at] != 46
        invariant
            start <= at <= to <= text@.len(),
            point == point_place(text@, start as int, to as int),
            point == point_place(text@, at as int, to as int),
            at <= point <= to,
            all_digits(text@, start as int, at as int),
            whole == digits_value(text@, start as int, at as int),
            0 <= whole <= 9_223_372_036,
        decreases to - at,
    {
        let byte = text[at];
        proof {
            lemma_point_behind(text@, at + 1, to as int);
        }
        assert(point == point_place(text@, at + 1, to as int));
        assert(at < point);
        if byte < 48 || byte > 57 {
            assert(!is_digit(text@[at as int]));
            assert(!all_digits(text@, start as int, point));
            return None;
        }
        let next: i64 = whole * 10 + (byte - 48) as i64;
        at += 1;
        assert(next == digits_value(text@, start as int, at as int));
        if next > 9_223_372_036 {
            proof {
                if all_digits(text@, start as int, point) {
                    lemma_digits_grow(text@, start as int, at as int, point);
                }
            }
            return None;
        }
        whole = next;
    }
    Some((whole, at))
}

/// The units that the digits from `after` up to `to` spell behind a
/// decimal point; nothing where something else than a digit stands among
/// them.
fn read_fraction(text: &[u8], after: usize, to: usize) -> (fraction: Option<i64>)
    requires
        after <= to <= text@.len(),
    ensures
        fraction is Some == all_digits(text@, after as int, to as int),
        fraction is Some ==> fraction.unwrap() == fraction_value(
            text@,
            after as int,
            to as int,
            100_000_000,
        ) && 0 <= fraction.unwrap() <= 1_000_000_000,
{
    let mut fraction: i64 = 0;
    let mut scale: i64 = 100_000_000;
    let mut place: usize = after;
    while place < to
        invariant
            after <= place <= to <= text@.len(),
            all_digits(text@, after as int, place as int),
            0 <= scale <= 100_000_000,
            0 <= fraction,
            fraction + 10 * scale <= 1_000_000_000,
            fraction_value(text@, after as int, to as int, 100_000_000) == fraction
                + fraction_value(text@, place as int, to as int, scale as int),
        decreases to - place,
    {
        let byte = text[place];
        if byte < 48 || byte > 57 {
            assert(!is_digit(text@[place as int]));
            return None;
        }
        let digit: i64 = (byte - 48) as i64;
        proof {
            assert(0 <= digit * scale <= 9 * scale) by (nonlinear_arith)
                requires
                    0 <= digit <= 9,
                    0 <= scale,
            ;
            if scale == 0 {
                lemma_fraction_without_scale(text@, place as int, to as int);
            }
        }
        fraction = fraction + digit * scale;
        scale = scale / 10;
        place += 1;
    }
    Some(fraction)
}

/// Digits that count nothing spell nothing.
proof fn lemma_fraction_without_scale(text: Seq<u8>, from: int, to: int)
    ensures
        fraction_value(text, from, to, 0) == 0,
{
}

/// A decimal point is found at or behind the start.
proof fn lemma_point_behind(text: Seq<u8>, from: int, to: int)
    requires
        from <= to,
    ensures
        from <= point_place(text, from, to) <= to,
    decreases to - from,
{
    if from < to && text[from] != 46 {
        lemma_point_behind(text, from + 1, to);
    }
}

/// More digits spell no smaller number.
proof fn lemma_digits_grow(text: Seq<u8>, from: int, middle: int, to: int)
    requires
        from <= middle <= to,
        all_digits(text, from, to),
    ensures
        0 <= digits_value(text, from, middle) <= digits_value(text, from, to),
    decreases to - middle,
{
    lemma_digits_not_negative(text, from, middle);
    if middle < to {
        assert(is_digit(text[to - 1]));
        lemma_digits_grow(text, from, middle, to - 1);
    }
}

/// Digits spell no negative number.
proof fn lemma_digits_not_negative(text: Seq<u8>, from: int, to: int)
    requires
        all_digits(text, from, to),
    ensures
        digits_value(text, from, to) >= 0,
    decreases to - from,
{
    if from < to {
        assert(is_digit(text[to - 1]));
        lemma_digits_not_negative(text, from, to - 1);
    }
}

/// Digits behind the point spell no negative number.
proof fn lemma_fraction_bounds(text: Seq<u8>, from: int, to: int, scale: int)
    ensures
        all_digits(text, from, to) ==> fraction_value(text, from, to, scale) >= 0,
    decreases to - from,
{
    if all_digits(text, from, to) && from < to && scale > 0 {
        assert(is_digit(text[from]));
        lemma_fraction_bounds(text, from + 1, to, scale / 10);
        assert((text[from] - 48) * scale >= 0) by (nonlinear_arith)
            requires
                text[from] >= 48,
                scale > 0,
        ;
    }
}

impl Config {
    /// Gives the parameter `key` the value that the bytes from `from` up
    /// to `to` spell: see [`with_value`].
    pub fn set_value(&mut self, key: ConfigKey, text: &[u8], from: usize, to: usize) -> (done:
        Result<(), ConfigError>)
        requires
            from <= to <= text@.len(),
        ensures
            done is Ok == with_value(*old(self), key, text@, from as int, to as int) is Ok,
            done is Ok ==> *final(self) == with_value(
                *old(self),
                key,
                text@,
                from as int,
                to as int,
            ).unwrap(),
            done is Err ==> *final(self) == *old(self) && done->Err_0 == with_value(
                *old(self),
                key,
                text@,
                from as int,
                to as int,
            )->Err_0,
    {
        match key {
            ConfigKey::Activation => {
                let name = vstd::slice::slice_subrange(text, from, to);
                match ActivationFunction::from_bytes(name) {
                    Some(activation) => {
                        self.activation = activation;
                        Ok(())
                    },
                    None => Err(ConfigError::UnknownActivation),
                }
            },
            _ => match read_number(text, from, to) {
                None => Err(ConfigError::InvalidNumber),
                Some(value) => {
                    match key {
                        ConfigKey::MultDisjoint => {
                            self.mult_disjoint = value;
                        },
                        ConfigKey::MultExcess => {
                            self.mult_excess = value;
                        },
                        ConfigKey::MultWeightDiff => {
                            self.mult_weight_diff = value;
                        },
                        ConfigKey::WeightShiftStrength => {
                            self.weight_shift_strength = value;
                        },
                        ConfigKey::WeightRandomStrength => {
                            self.weight_random_strength = value;
                        },
                        ConfigKey::ProbMutateLink => {
                            self.prob_mutate_link = value;
                        },
                        ConfigKey::ProbMutateNode => {
                            self.prob_mutate_node = value;
                        },
                        ConfigKey::ProbMutateWeightShift => {
                            self.prob_mutate_weight_shift = value;
                        },
                        ConfigKey::ProbMutateWeightRandom => {
                            self.prob_mutate_weight_random = value;
                        },
                        ConfigKey::ProbMutateToggleLink => {
                            self.prob_mutate_toggle_link = value;
                        },
                        ConfigKey::SpeciesThreshold => {
                            self.species_threshold = value;
                        },
                        ConfigKey::KillPercentage => {
                            self.kill_percentage = value;
                        },
                        ConfigKey::Activation => {},
                    }
                    Ok(())
                },
            },
        }
    }
}

/// The place of the parameter among the thirteen parameters.
pub fn place_of(key: ConfigKey) -> (place: usize)
    ensures
        place == key_place(key),
        place < 13,
{
    match key {
        ConfigKey::MultDisjoint => 0,
        ConfigKey::MultExcess => 1,
        ConfigKey::MultWeightDiff => 2,
        ConfigKey::WeightShiftStrength => 3,
        ConfigKey::WeightRandomStrength => 4,
        ConfigKey::ProbMutateLink => 5,
        ConfigKey::ProbMutateNode => 6,
        ConfigKey::ProbMutateWeightShift => 7,
        ConfigKey::ProbMutateWeightRandom => 8,
        ConfigKey::ProbMutateToggleLink => 9,
        ConfigKey::SpeciesThreshold => 10,
        ConfigKey::KillPercentage => 11,
        ConfigKey::Activation => 12,
    }
}

/// A configuration that is being read from a text.
pub struct Draft {
    /// The configuration so far.
    pub config: Config,
    /// Whether each of the thirteen parameters was given a value.
    pub given: Vec<bool>,
}

impl View for Draft {
    type V = Reading;

    open spec fn view(&self) -> Reading {
        Reading { config: self.config, given: self.given@ }
    }
}

impl Draft {
    /// A draft of which nothing was read yet.
    pub fn new() -> (draft: Self)
        ensures
            draft@ == nothing_read(),
    {
        let mut given: Vec<bool> = Vec::new();
        while given.len() < 13
            invariant
                given@.len() <= 13,
                forall|i: int| 0 <= i < given@.len() ==> !given@[i],
            decreases 13 - given@.len(),
        {
            given.push(false);
        }
        let draft = Draft { config: Config::init_zero(), given };
        assert(draft@.given =~= nothing_read().given);
        draft
    }

    /// Whether every one of the thirteen parameters was given a value.
    pub fn is_complete(&self) -> (all: bool)
        ensures
            all == complete(self@.given),
    {
        if self.given.len() != 13 {
            return false;
        }
        let mut place: usize = 0;
        while place < 13
            invariant
                place <= 13,
                self.given@.len() == 13,
                forall|i: int| 0 <= i < place ==> self.given@[i],
            decreases 13 - place,
        {
            if !self.given[place] {
                return false;
            }
            place += 1;
        }
        true
    }

    /// Reads the line from `from` up to `limit` into this draft: see
    /// [`parse_tokens`]. What was read before the line failed stays.
    pub fn read_line(&mut self, text: &[u8], from: usize, limit: usize) -> (done: Result<
        (),
        ConfigError,
    >)
        requires
            from <= limit <= text@.len(),
            old(self).given@.len() == 13,
        ensures
            final(self).given@.len() == 13,
            done is Ok == parse_tokens(old(self)@, text@, from as int, limit as int) is Ok,
            done is Ok ==> final(self)@ == parse_tokens(
                old(self)@,
                text@,
                from as int,
                limit as int,
            ).unwrap(),
            done is Err ==> done->Err_0 == parse_tokens(
                old(self)@,
                text@,
                from as int,
                limit as int,
            )->Err_0,
    {
        let mut at: usize = from;
        loop
            invariant
                from <= at <= limit <= text@.len(),
                self.given@.len() == 13,
                parse_tokens(old(self)@, text@, from as int, limit as int) == parse_tokens(
                    self@,
                    text@,
                    at as int,
                    limit as int,
                ),
            decreases limit - at,
        {
            let end = find_token_end(text, at, limit);
            if end == at {
                if end >= limit {
                    return Ok(());
                }
                at = end + 2;
            } else {
                let key = match read_key(text, at, end) {
                    None => {
                        return Err(ConfigError::UnknownKey);
                    },
                    Some(key) => key,
                };
                if end >= limit {
                    return Err(ConfigError::MissingValue);
                }
                let value_end = find_token_end(text, end + 2, limit);
                match self.config.set_value(key, text, end + 2, value_end) {
                    Err(error) => {
                        return Err(error);
                    },
                    Ok(()) => {},
                }
                let place = place_of(key);
                self.given[place] = true;
                if value_end >= limit {
                    return Ok(());
                }
                at = value_end + 2;
            }
        }
    }

    /// Reads the line that starts at `from` into this draft and says
    /// where the next line starts.
    fn read_first_line(&mut self, text: &[u8], from: usize) -> (next: Result<usize, ConfigError>)
        requires
            from < text@.len(),
            old(self).given@.len() == 13,
        ensures
            final(self).given@.len() == 13,
            next is Err ==> parse_lines(old(self)@, text@, from as int) == Err::<
                Reading,
                ConfigError,
            >(next->Err_0),
            next is Ok ==> from < next->Ok_0 <= text@.len() && parse_lines(
                old(self)@,
                text@,
                from as int,
            ) == parse_lines(final(self)@, text@, next->Ok_0 as int),
    {
        proof {
            reveal(parse_lines);
        }
        let end = find_line_end(text, from);
        let limit: usize = if end < text.len() && from < end && text[end - 1] == 13 {
            end - 1
        } else {
            end
        };
        match self.read_line(text, from, limit) {
            Err(error) => Err(error),
            Ok(()) => {
                if end >= text.len() {
                    Ok(end)
                } else {
                    Ok(end + 1)
                }
            },
        }
    }
}

impl Config {
    /// The configuration that the bytes of a text describe: see
    /// [`parse_text`]. The text has to give every one of the thirteen
    /// parameters a value. The networks get a bias input.
    pub fn parse(text: &[u8]) -> (config: Result<Config, ConfigError>)
        ensures
            config == parse_text(text@),
    {
        let mut draft = Draft::new();
        let mut from: usize = 0;
        while from < text.len()
            invariant
                from <= text@.len(),
                draft.given@.len() == 13,
                parse_lines(nothing_read(), text@, 0) == parse_lines(draft@, text@, from as int),
            decreases text@.len() - from,
        {
            match draft.read_first_line(text, from) {
                Err(error) => {
                    return Err(error);
                },
                Ok(next) => {
                    from = next;
                },
            }
        }
        proof {
            reveal(parse_lines);
        }
        if draft.is_complete() {
            Ok(draft.config)
        } else {
            Err(ConfigError::MissingKey)
        }
    }

    /// The configuration that a text describes: see [`Config::parse`].
    pub fn from_text(text: &str) -> (config: Result<Config, ConfigError>)
        ensures
            config == parse_text(text.spec_bytes()),
    {
        Config::parse(text.as_bytes())
    }
}

} // verus!
