//! Command-line arguments of the `needle-rs` program.

use crate::batch::DEFAULT_CHUNK;
use crate::engine::{GenerateOptions, DEFAULT_MAX_NEW_TOKENS};
use crate::json_machine::views;
use crate::numerals::{decimal, law_decimals_end_with_the_remainder};
use crate::text::str_eq;
use crate::text::{chars_at, chars_of, occurs_at};
use vstd::prelude::*;
use vstd::string::*;

verus! {

/// The help text.
pub const USAGE: &'static str = "\
Usage:
  needle-rs [OPTIONS] <model.cact> <query> <tools_json>                 (Needle v2)
  needle-rs [OPTIONS] <weights.safetensors> <vocab.txt> <query> <tools_json>   (v1)

The model version is taken from the file: a `.cact` container carries its own
geometry and tokenizer, so it needs no vocabulary argument. A `.safetensors`
file is the v1 format and needs one.

Arguments:
  model       Path to a .cact container (v2) or .safetensors weights (v1)
  vocab       v1 only: vocabulary text file, one piece per line
  query       User query string
  tools       JSON array of tool definitions

Options:
  --stream            Print each token to stderr as generated; result to stdout
  --max-tokens <N>    Generation cap (v2 only, default 128)
  --temperature <T>   0 for greedy, higher to sample (v2 only, default 0)
  --seed <N>          Sampling seed (v2 only, default 0)
  --system <TEXT>     System message (v2 only)
  --json              Print only the tool-call payload, not the full text (v2 only)
  --constrain         Restrict the tool-call payload to the declared schema (v2 only)
  --prefill-chunk <N> Positions per batched-prefill chunk; 0 prefills one at a
                      time (v2 only, default 128)
  --help              Print this message

Examples:
  needle-rs weights/needle2.cact \\
    \"What's the weather in Paris?\" \\
    '[{\"name\":\"get_weather\",\"parameters\":{\"city\":{\"type\":\"string\"}}}]'

  needle-rs --stream --max-tokens 64 weights/needle2.cact \\
    \"Book a flight\" '[{\"name\":\"book_flight\",\"parameters\":{}}]'
";

/// The parsed arguments.
#[derive(Debug)]
pub struct Opts {
    pub stream: bool,
    pub json_only: bool,
    pub constrain: bool,
    pub prefill_chunk: Option<usize>,
    pub max_tokens: Option<usize>,
    /// Float bits.
    pub temperature: Option<u32>,
    pub seed: Option<u64>,
    pub system: Option<String>,
    pub positional: Vec<String>,
}

/// The parsed arguments as mathematics.
#[verifier::ext_equal]
pub struct OptsModel {
    pub stream: bool,
    pub json_only: bool,
    pub constrain: bool,
    pub prefill_chunk: Option<int>,
    pub max_tokens: Option<int>,
    pub temperature: Option<u32>,
    pub seed: Option<int>,
    pub system: Option<Seq<char>>,
    pub positional: Seq<Seq<char>>,
}

impl View for Opts {
    type V = OptsModel;

    open spec fn view(&self) -> OptsModel {
        OptsModel {
            stream: self.stream,
            json_only: self.json_only,
            constrain: self.constrain,
            prefill_chunk: match self.prefill_chunk {
                Some(n) => Some(n as int),
                None => None,
            },
            max_tokens: match self.max_tokens {
                Some(n) => Some(n as int),
                None => None,
            },
            temperature: self.temperature,
            seed: match self.seed {
                Some(n) => Some(n as int),
                None => None,
            },
            system: match self.system {
                Some(s) => Some(s@),
                None => None,
            },
            positional: views(self.positional@),
        }
    }
}

/// Arguments before any was read.
pub open spec fn no_opts() -> OptsModel {
    OptsModel {
        stream: false,
        json_only: false,
        constrain: false,
        prefill_chunk: None,
        max_tokens: None,
        temperature: None,
        seed: None,
        system: None,
        positional: Seq::empty(),
    }
}

/// What the arguments ask for.
#[derive(Debug)]
pub enum Parsed {
    Run(Opts),
    /// Print the help text.
    Help,
    /// Report a mistake.
    Fail(String),
}

/// What the arguments ask for, as mathematics.
pub enum ParsedModel {
    Run(OptsModel),
    Help,
    Fail(Seq<char>),
}

impl View for Parsed {
    type V = ParsedModel;

    open spec fn view(&self) -> ParsedModel {
        match self {
            Parsed::Run(o) => ParsedModel::Run(o@),
            Parsed::Help => ParsedModel::Help,
            Parsed::Fail(s) => ParsedModel::Fail(s@),
        }
    }
}

/// The value of a decimal digit.
pub open spec fn digit_value(c: char) -> Option<int> {
    if '0' <= c && c <= '9' {
        Some(c as int - '0' as int)
    } else {
        None
    }
}

/// The number that decimal digits spell. `None` where there is no digit, or
/// something else among them.
pub open spec fn digits_value(s: Seq<char>) -> Option<int>
    decreases s.len(),
{
    if s.len() == 0 {
        None
    } else {
        match digit_value(s.last()) {
            None => None,
            Some(d) => if s.len() == 1 {
                Some(d)
            } else {
                match digits_value(s.drop_last()) {
                    Some(n) => Some(n * 10 + d),
                    None => None,
                }
            },
        }
    }
}

/// The number up to `max` that a text spells: an optional plus sign and decimal
/// digits.
pub open spec fn number_value(s: Seq<char>, max: int) -> Option<int> {
    let digits = if s.len() > 0 && s[0] == '+' {
        s.skip(1)
    } else {
        s
    };
    match digits_value(digits) {
        Some(n) => if n <= max {
            Some(n)
        } else {
            None
        },
        None => None,
    }
}

proof fn lemma_digits_value_grows(s: Seq<char>, k: int)
    requires
        0 < k <= s.len(),
        digits_value(s) is Some,
    ensures
        digits_value(s.take(k)) is Some,
        0 <= digits_value(s.take(k))->0 <= digits_value(s)->0,
    decreases s.len() - k,
{
    lemma_digits_value_not_negative(s);
    if k == s.len() {
        assert(s.take(k) =~= s);
    } else {
        assert(s.drop_last().take(k) =~= s.take(k));
        lemma_digits_value_grows(s.drop_last(), k);
    }
}

proof fn lemma_digits_value_not_negative(s: Seq<char>)
    ensures
        digits_value(s) is Some ==> digits_value(s)->0 >= 0,
    decreases s.len(),
{
    if s.len() > 1 {
        lemma_digits_value_not_negative(s.drop_last());
    }
}

/// The number up to `max` that a text spells.
pub fn parse_number(text: &str, max: u64) -> (r: Option<u64>)
    ensures
        match number_value(text@, max as int) {
            Some(n) => r is Some && r->0 == n,
            None => r is None,
        },
{
    let chars = chars_of(text);
    let n: usize = chars.len();
    let start: usize = if n > 0 && chars[0] == '+' {
        1
    } else {
        0
    };
    let ghost digits = chars@.skip(start as int);
    proof {
        assert(chars@.skip(0) =~= chars@);
        lemma_digits_value_not_negative(digits);
    }
    if start == n {
        return None;
    }
    let mut value: u64 = 0;
    let mut i: usize = start;
    while i < n
        invariant
            start <= i <= n,
            n == chars@.len(),
            digits == chars@.skip(start as int),
            start < n,
            value <= max,
            i == start ==> value == 0,
            i > start ==> digits_value(digits.take(i - start)) == Some(value as int),
            number_value(text@, max as int) == match digits_value(digits) {
                Some(v) => if v <= max {
                    Some(v)
                } else {
                    None
                },
                None => None,
            },
        decreases n - i,
    {
        let c: char = chars[i];
        let ghost part = digits.take(i + 1 - start);
        proof {
            assert(part.drop_last() =~= digits.take(i - start));
            assert(part.last() == c);
            if digits_value(digits) is Some {
                lemma_digits_value_grows(digits, i + 1 - start);
            }
        }
        if !('0' <= c && c <= '9') {
            return None;
        }
        let d: u64 = (c as u32 - '0' as u32) as u64;
        let next: u128 = value as u128 * 10 + d as u128;
        if next > max as u128 {
            return None;
        }
        value = next as u64;
        i = i + 1;
    }
    assert(digits.take(n - start) =~= digits);
    Some(value)
}

/// The report of a flag whose value is missing.
pub open spec fn missing_value(flag: Seq<char>) -> Seq<char> {
    flag + " needs a value\n\n"@ + USAGE@
}

/// The report of a flag that is not known.
pub open spec fn unknown_option(arg: Seq<char>) -> Seq<char> {
    "Unknown option: "@ + arg + "\n\n"@ + USAGE@
}

/// What the arguments from `i` on ask for, with `o` read before them.
/// `numbers[k]` is what argument `k` is as a float, if it is one.
pub open spec fn parse(
    raw: Seq<Seq<char>>,
    numbers: Seq<Option<u32>>,
    i: int,
    o: OptsModel,
) -> ParsedModel
    decreases raw.len() - i,
{
    if i < 0 || i >= raw.len() {
        ParsedModel::Run(o)
    } else {
        let arg = raw[i];
        if arg == "--stream"@ {
            parse(raw, numbers, i + 1, OptsModel { stream: true, ..o })
        } else if arg == "--json"@ {
            parse(raw, numbers, i + 1, OptsModel { json_only: true, ..o })
        } else if arg == "--constrain"@ {
            parse(raw, numbers, i + 1, OptsModel { constrain: true, ..o })
        } else if arg == "--prefill-chunk"@ {
            if i + 1 >= raw.len() {
                ParsedModel::Fail(missing_value(arg))
            } else {
                match number_value(raw[i + 1], usize::MAX as int) {
                    Some(n) => parse(
                        raw,
                        numbers,
                        i + 2,
                        OptsModel { prefill_chunk: Some(n), ..o },
                    ),
                    None => ParsedModel::Fail("--prefill-chunk must be an integer"@),
                }
            }
        } else if arg == "--max-tokens"@ {
            if i + 1 >= raw.len() {
                ParsedModel::Fail(missing_value(arg))
            } else {
                match number_value(raw[i + 1], usize::MAX as int) {
                    Some(n) => parse(raw, numbers, i + 2, OptsModel { max_tokens: Some(n), ..o }),
                    None => ParsedModel::Fail("--max-tokens must be an integer"@),
                }
            }
        } else if arg == "--temperature"@ {
            if i + 1 >= raw.len() {
                ParsedModel::Fail(missing_value(arg))
            } else {
                match numbers[i + 1] {
                    Some(t) => parse(raw, numbers, i + 2, OptsModel { temperature: Some(t), ..o }),
                    None => ParsedModel::Fail("--temperature must be a number"@),
                }
            }
        } else if arg == "--seed"@ {
            if i + 1 >= raw.len() {
                ParsedModel::Fail(missing_value(arg))
            } else {
                match number_value(raw[i + 1], u64::MAX as int) {
                    Some(n) => parse(raw, numbers, i + 2, OptsModel { seed: Some(n), ..o }),
                    None => ParsedModel::Fail("--seed must be an integer"@),
                }
            }
        } else if arg == "--system"@ {
            if i + 1 >= raw.len() {
                ParsedModel::Fail(missing_value(arg))
            } else {
                parse(raw, numbers, i + 2, OptsModel { system: Some(raw[i + 1]), ..o })
            }
        } else if arg == "--help"@ || arg == "-h"@ {
            ParsedModel::Help
        } else if occurs_at(arg, "--"@, 0) {
            ParsedModel::Fail(unknown_option(arg))
        } else {
            parse(raw, numbers, i + 1, OptsModel { positional: o.positional.push(arg), ..o })
        }
    }
}

/// The value behind a flag, or the report that it is missing.
pub fn take(raw: &[String], i: usize, name: &str) -> (r: Result<String, String>)
    requires
        i < raw@.len(),
    ensures
        i + 1 < raw@.len() ==> r is Ok && r->Ok_0@ == raw@[i + 1]@,
        i + 1 >= raw@.len() ==> r is Err && r->Err_0@ == missing_value(name@),
{
    let n: usize = raw.len();
    if i + 1 < n {
        return Ok(raw[i + 1].clone());
    }
    let mut m: String = String::new();
    m.append(name);
    m.append(" needs a value\n\n");
    m.append(USAGE);
    assert(m@ =~= missing_value(name@));
    Err(m)
}

fn text(s: &str) -> (r: String)
    ensures
        r@ == s@,
{
    s.to_owned()
}

fn starts_with_dashes(arg: &str) -> (r: bool)
    ensures
        r == occurs_at(arg@, "--"@, 0),
{
    chars_at(&chars_of(arg), &chars_of("--"), 0)
}

/// What the arguments ask for. `numbers[k]` is what argument `k` is as a float,
/// in float bits, if it is one.
#[verifier::loop_isolation(false)]
pub fn parse_args(raw: &[String], numbers: &[Option<u32>]) -> (r: Parsed)
    requires
        numbers@.len() == raw@.len(),
    ensures
        r@ == parse(views(raw@), numbers@, 0, no_opts()),
{
    let mut o = Opts {
        stream: false,
        json_only: false,
        constrain: false,
        prefill_chunk: None,
        max_tokens: None,
        temperature: None,
        seed: None,
        system: None,
        positional: Vec::new(),
    };
    let n: usize = raw.len();
    let ghost all = views(raw@);
    assert(o@ =~= no_opts());
    let mut i: usize = 0;
    while i < n
        invariant
            i <= n,
            parse(all, numbers@, 0, no_opts()) == parse(all, numbers@, i as int, o@),
        decreases n - i,
    {
        let ghost before = o@;
        let arg: &str = raw[i].as_str();
        assert(all[i as int] == arg@);
        if i + 1 < n {
            assert(all[i + 1] == raw@[i + 1]@);
        }
        if str_eq(arg, "--stream") {
            o.stream = true;
            assert(o@ =~= (OptsModel { stream: true, ..before }));
        } else if str_eq(arg, "--json") {
            o.json_only = true;
            assert(o@ =~= (OptsModel { json_only: true, ..before }));
        } else if str_eq(arg, "--constrain") {
            o.constrain = true;
            assert(o@ =~= (OptsModel { constrain: true, ..before }));
        } else if str_eq(arg, "--prefill-chunk") {
            let v: String = match take(raw, i, "--prefill-chunk") {
                Ok(v) => v,
                Err(m) => return Parsed::Fail(m),
            };
            match parse_number(v.as_str(), usize::MAX as u64) {
                Some(x) => {
                    o.prefill_chunk = Some(x as usize);
                    assert(o@ =~= (OptsModel { prefill_chunk: Some(x as int), ..before }));
                },
                None => return Parsed::Fail(text("--prefill-chunk must be an integer")),
            }
            i = i + 1;
        } else if str_eq(arg, "--max-tokens") {
            let v: String = match take(raw, i, "--max-tokens") {
                Ok(v) => v,
                Err(m) => return Parsed::Fail(m),
            };
            match parse_number(v.as_str(), usize::MAX as u64) {
                Some(x) => {
                    o.max_tokens = Some(x as usize);
                    assert(o@ =~= (OptsModel { max_tokens: Some(x as int), ..before }));
                },
                None => return Parsed::Fail(text("--max-tokens must be an integer")),
            }
            i = i + 1;
        } else if str_eq(arg, "--temperature") {
            match take(raw, i, "--temperature") {
                Ok(_) => {},
                Err(m) => return Parsed::Fail(m),
            }
            match numbers[i + 1] {
                Some(x) => {
                    o.temperature = Some(x);
                    assert(o@ =~= (OptsModel { temperature: Some(x), ..before }));
                },
                None => return Parsed::Fail(text("--temperature must be a number")),
            }
            i = i + 1;
        } else if str_eq(arg, "--seed") {
            let v: String = match take(raw, i, "--seed") {
                Ok(v) => v,
                Err(m) => return Parsed::Fail(m),
            };
            match parse_number(v.as_str(), u64::MAX) {
                Some(x) => {
                    o.seed = Some(x);
                    assert(o@ =~= (OptsModel { seed: Some(x as int), ..before }));
                },
                None => return Parsed::Fail(text("--seed must be an integer")),
            }
            i = i + 1;
        } else if str_eq(arg, "--system") {
            let v: String = match take(raw, i, "--system") {
                Ok(v) => v,
                Err(m) => return Parsed::Fail(m),
            };
            o.system = Some(v);
            assert(o@ =~= (OptsModel { system: Some(all[i + 1]), ..before }));
            i = i + 1;
        } else if str_eq(arg, "--help") || str_eq(arg, "-h") {
            return Parsed::Help;
        } else if starts_with_dashes(arg) {
            let mut m: String = String::new();
            m.append("Unknown option: ");
            m.append(arg);
            m.append("\n\n");
            m.append(USAGE);
            assert(m@ =~= unknown_option(arg@));
            return Parsed::Fail(m);
        } else {
            o.positional.push(raw[i].clone());
            assert(o@ =~= (OptsModel { positional: before.positional.push(arg@), ..before }));
        }
        i = i + 1;
    }
    Parsed::Run(o)
}

/// Which kind of model the arguments name.
#[derive(Debug, Clone, Copy, PartialEq, Eq)]
pub enum Version {
    V1,
    V2,
}

/// `s` ends with `suffix`.
pub open spec fn ends_in(s: Seq<char>, suffix: Seq<char>) -> bool {
    occurs_at(s, suffix, s.len() - suffix.len())
}

/// The first flag in `o` that a v1 model does not take, in the order of this
/// list.
pub open spec fn v2_only_flag(o: OptsModel) -> Option<Seq<char>> {
    if o.max_tokens is Some {
        Some("--max-tokens"@)
    } else if o.temperature is Some {
        Some("--temperature"@)
    } else if o.seed is Some {
        Some("--seed"@)
    } else if o.system is Some {
        Some("--system"@)
    } else if o.json_only {
        Some("--json"@)
    } else if o.constrain {
        Some("--constrain"@)
    } else if o.prefill_chunk is Some {
        Some("--prefill-chunk"@)
    } else {
        None
    }
}

/// Which kind of model runs, or why none does.
pub open spec fn version_of(o: OptsModel) -> Result<Version, Seq<char>> {
    if o.positional.len() == 0 {
        Err(USAGE@)
    } else if ends_in(o.positional[0], ".cact"@) {
        if o.positional.len() < 3 {
            Err(
                "a .cact model takes <query> and <tools_json> (its tokenizer is embedded)\n\n"@
                    + USAGE@,
            )
        } else {
            Ok(Version::V2)
        }
    } else if o.positional.len() < 4 {
        Err(
            "v1 .safetensors weights also need <vocab.txt>; a .cact model does not\n\n"@ + USAGE@,
        )
    } else {
        match v2_only_flag(o) {
            Some(flag) => Err(flag + " is v2 only; "@ + o.positional[0] + " is a v1 model"@),
            None => Ok(Version::V1),
        }
    }
}

fn with_usage(m: &str) -> (r: String)
    ensures
        r@ == m@ + USAGE@,
{
    let mut out: String = String::new();
    out.append(m);
    out.append(USAGE);
    assert(out@ =~= m@ + USAGE@);
    out
}

fn ends_in_cact(s: &str) -> (r: bool)
    ensures
        r == ends_in(s@, ".cact"@),
{
    let chars = chars_of(s);
    let suffix = chars_of(".cact");
    if chars.len() < suffix.len() {
        return false;
    }
    chars_at(&chars, &suffix, chars.len() - suffix.len())
}

impl Opts {
    /// The first flag that a v1 model does not take.
    fn v2_only(&self) -> (r: Option<&'static str>)
        ensures
            match v2_only_flag(self@) {
                Some(f) => r is Some && r->0@ == f,
                None => r is None,
            },
    {
        if self.max_tokens.is_some() {
            Some("--max-tokens")
        } else if self.temperature.is_some() {
            Some("--temperature")
        } else if self.seed.is_some() {
            Some("--seed")
        } else if self.system.is_some() {
            Some("--system")
        } else if self.json_only {
            Some("--json")
        } else if self.constrain {
            Some("--constrain")
        } else if self.prefill_chunk.is_some() {
            Some("--prefill-chunk")
        } else {
            None
        }
    }

    /// Which kind of model runs, or why none does.
    pub fn version(&self) -> (r: Result<Version, String>)
        ensures
            match version_of(self@) {
                Ok(v) => r is Ok && r->Ok_0 == v,
                Err(m) => r is Err && r->Err_0@ == m,
            },
    {
        let n: usize = self.positional.len();
        assert(self@.positional.len() == n);
        if n == 0 {
            return Err(text(USAGE));
        }
        let model: &str = self.positional[0].as_str();
        assert(self@.positional[0] == model@);
        if ends_in_cact(model) {
            if n < 3 {
                return Err(
                    with_usage(
                        "a .cact model takes <query> and <tools_json> (its tokenizer is embedded)\n\n",
                    ),
                );
            }
            return Ok(Version::V2);
        }
        if n < 4 {
            return Err(
                with_usage(
                    "v1 .safetensors weights also need <vocab.txt>; a .cact model does not\n\n",
                ),
            );
        }
        match self.v2_only() {
            Some(flag) => {
                let mut m: String = String::new();
                m.append(flag);
                m.append(" is v2 only; ");
                m.append(model);
                m.append(" is a v1 model");
                assert(m@ =~= flag@ + " is v2 only; "@ + model@ + " is a v1 model"@);
                Err(m)
            },
            None => Ok(Version::V1),
        }
    }

    /// The generation settings, with defaults for what was not given.
    pub fn generate_options(&self) -> (g: GenerateOptions)
        ensures
            g.max_new_tokens == match self@.max_tokens {
                Some(n) => n,
                None => DEFAULT_MAX_NEW_TOKENS as int,
            },
            g.temperature == match self@.temperature {
                Some(t) => t,
                None => 0,
            },
            g.seed == match self@.seed {
                Some(n) => n,
                None => 0,
            },
            match self@.system {
                Some(s) => g.system is Some && g.system->0@ == s,
                None => g.system is None,
            },
            g.constrain == self@.constrain,
            g.prefill_chunk == match self@.prefill_chunk {
                Some(n) => n,
                None => DEFAULT_CHUNK as int,
            },
    {
        GenerateOptions {
            max_new_tokens: match self.max_tokens {
                Some(n) => n,
                None => DEFAULT_MAX_NEW_TOKENS,
            },
            temperature: match self.temperature {
                Some(t) => t,
                None => 0,
            },
            seed: match self.seed {
                Some(n) => n,
                None => 0,
            },
            system: match &self.system {
                Some(s) => Some(s.clone()),
                None => None,
            },
            prefill_chunk: match self.prefill_chunk {
                Some(n) => n,
                None => DEFAULT_CHUNK,
            },
            constrain: self.constrain,
        }
    }
}

proof fn lemma_digits_of_a_decimal(n: nat)
    ensures
        digits_value(decimal(n)) == Some(n as int),
        decimal(n).len() > 0,
        decimal(n)[0] != '+',
    decreases n,
{
    law_decimals_end_with_the_remainder(n);
    if n >= 10 {
        lemma_digits_of_a_decimal(n / 10);
        assert(decimal(n)[0] == decimal(n).drop_last()[0]);
    }
}

/// A number is read as it is written, with or without a plus sign, as long as it is not
/// above `max`.
pub proof fn law_numbers_are_read_as_they_are_written(n: nat, max: int)
    ensures
        number_value(decimal(n), max) == if n <= max {
            Some(n as int)
        } else {
            None
        },
        number_value(seq!['+'] + decimal(n), max) == number_value(decimal(n), max),
{
    lemma_digits_of_a_decimal(n);
    let signed = seq!['+'] + decimal(n);
    assert(signed.skip(1) =~= decimal(n));
}

/// The argument is no flag.
pub open spec fn is_plain(arg: Seq<char>) -> bool {
    !occurs_at(arg, "--"@, 0) && arg != "-h"@
}

proof fn lemma_plain(arg: Seq<char>)
    requires
        is_plain(arg),
    ensures
        arg != "--stream"@ && arg != "--json"@ && arg != "--constrain"@ && arg != "--prefill-chunk"@,
        arg != "--max-tokens"@ && arg != "--temperature"@ && arg != "--seed"@ && arg != "--system"@,
        arg != "--help"@,
{
    reveal_strlit("--");
    reveal_strlit("--stream");
    reveal_strlit("--json");
    reveal_strlit("--constrain");
    reveal_strlit("--prefill-chunk");
    reveal_strlit("--max-tokens");
    reveal_strlit("--temperature");
    reveal_strlit("--seed");
    reveal_strlit("--system");
    reveal_strlit("--help");
    if arg.len() >= 2 && arg[0] == '-' && arg[1] == '-' {
        assert(arg.subrange(0, 2) =~= "--"@);
    }
}

/// Arguments that are no flags are taken as they are and in their order, and change no
/// option.
pub proof fn law_plain_arguments_keep_their_order(
    raw: Seq<Seq<char>>,
    numbers: Seq<Option<u32>>,
    i: int,
    o: OptsModel,
)
    requires
        0 <= i <= raw.len(),
        forall|k: int| i <= k < raw.len() ==> is_plain(#[trigger] raw[k]),
    ensures
        parse(raw, numbers, i, o) == ParsedModel::Run(
            OptsModel { positional: o.positional + raw.skip(i), ..o },
        ),
    decreases raw.len() - i,
{
    if i < raw.len() {
        lemma_plain(raw[i]);
        let next = OptsModel { positional: o.positional.push(raw[i]), ..o };
        law_plain_arguments_keep_their_order(raw, numbers, i + 1, next);
        assert(o.positional.push(raw[i]) + raw.skip(i + 1) =~= o.positional + raw.skip(i));
    } else {
        assert(o.positional + raw.skip(i) =~= o.positional);
    }
}

/// The model file decides what runs: with a `.cact` file, a query and tools a v2 model,
/// whatever the flags; with any other file and three arguments more a v1 model, but not
/// where a flag asks for what only v2 has.
pub proof fn law_the_model_file_decides_the_version(o: OptsModel)
    requires
        o.positional.len() >= 4,
    ensures
        ends_in(o.positional[0], ".cact"@) ==> version_of(o) == Ok::<Version, Seq<char>>(Version::V2),
        !ends_in(o.positional[0], ".cact"@) ==> (version_of(o) is Ok <==> o.max_tokens is None
            && o.temperature is None && o.seed is None && o.system is None && !o.json_only
            && !o.constrain && o.prefill_chunk is None),
        !ends_in(o.positional[0], ".cact"@) && version_of(o) is Ok ==> version_of(o)->Ok_0
            == Version::V1,
{
}

} // verus!
