//! Completion parameters: which model to query, how many samples to draw,
//! how long the answer may be, and how adventurous it should be.
//!
//! Temperature is kept in hundredths, so the accepted range of 0.0 to 2.0
//! becomes the integers 0 to 200 and the default of 1.0 becomes 100.

use vstd::prelude::*;

verus! {

/// Upper bound of the temperature range, in hundredths (2.0).
pub const MAX_TEMPERATURE: u32 = 200;

/// Default temperature, in hundredths (1.0).
pub const DEFAULT_TEMPERATURE: u32 = 100;

/// Default number of samples requested per completion.
pub const DEFAULT_N: u8 = 1;

/// Default bound on the length of a completion, in tokens.
pub const DEFAULT_MAX_TOKENS: u16 = 512;

/// The models that are available for chat completions, each with the
/// canonical name it goes by on the wire.
#[derive(Clone, Copy, Debug, PartialEq, Eq, Structural, Hash)]
#[allow(non_camel_case_types)]
pub enum CompletionModel {
    GPT35,
    GPT35_16K,
    GPT4,
    GPT4_32K,
}

impl CompletionModel {
    /// The canonical wire name of the model.
    pub open spec fn spec_wire_name(self) -> Seq<char> {
        match self {
            CompletionModel::GPT35 => "gpt-3.5-turbo"@,
            CompletionModel::GPT35_16K => "gpt-3.5-turbo-16k"@,
            CompletionModel::GPT4 => "gpt-4"@,
            CompletionModel::GPT4_32K => "gpt-4-32k"@,
        }
    }

    /// Renders the model as its canonical wire name.
    pub fn to_string(&self) -> (r: String)
        ensures
            r@ == self.spec_wire_name(),
    {
        match self {
            CompletionModel::GPT35 => String::from_str("gpt-3.5-turbo"),
            CompletionModel::GPT35_16K => String::from_str("gpt-3.5-turbo-16k"),
            CompletionModel::GPT4 => String::from_str("gpt-4"),
            CompletionModel::GPT4_32K => String::from_str("gpt-4-32k"),
        }
    }
}

/// The parameters of one completion request. A value of this type always
/// carries a temperature within the accepted range; construction through the
/// builder rejects anything else. Values are never mutated in place:
/// overrides produce a new value.
#[derive(Clone, Copy, Debug, PartialEq, Eq, Structural)]
pub struct CompletionParameters {
    temperature: u32,
    n: u8,
    model: CompletionModel,
    max_tokens: u16,
}

impl CompletionParameters {
    /// Temperature within the accepted range is what makes parameters
    /// well-formed.
    #[verifier::type_invariant]
    spec fn wf(self) -> bool {
        self.temperature <= MAX_TEMPERATURE
    }

    pub closed spec fn spec_temperature(self) -> u32 {
        self.temperature
    }

    pub closed spec fn spec_n(self) -> u8 {
        self.n
    }

    pub closed spec fn spec_model(self) -> CompletionModel {
        self.model
    }

    pub closed spec fn spec_max_tokens(self) -> u16 {
        self.max_tokens
    }

    /// Temperature in hundredths; at most `MAX_TEMPERATURE`.
    pub fn temperature(&self) -> (r: u32)
        ensures
            r == self.spec_temperature(),
            r <= MAX_TEMPERATURE,
    {
        proof {
            use_type_invariant(self);
        }
        self.temperature
    }

    /// How many samples one completion request asks for.
    pub fn n(&self) -> (r: u8)
        ensures
            r == self.spec_n(),
    {
        self.n
    }

    /// The model completions are requested from.
    pub fn model(&self) -> (r: CompletionModel)
        ensures
            r == self.spec_model(),
    {
        self.model
    }

    /// The bound on the length of a completion, in tokens.
    pub fn max_tokens(&self) -> (r: u16)
        ensures
            r == self.spec_max_tokens(),
    {
        self.max_tokens
    }

    /// A copy of these parameters with the sample count replaced; everything
    /// else is kept.
    pub fn with_n(&self, n: u8) -> (r: Self)
        ensures
            r.spec_n() == n,
            r.spec_temperature() == self.spec_temperature(),
            r.spec_model() == self.spec_model(),
            r.spec_max_tokens() == self.spec_max_tokens(),
    {
        proof {
            use_type_invariant(self);
        }
        let mut copy = *self;
        copy.n = n;
        copy
    }
}

/// Builds `CompletionParameters`, filling in defaults for fields that were
/// not set and rejecting a temperature outside the accepted range.
#[derive(Clone, Copy, Debug)]
pub struct CompletionParametersBuilder {
    pub temperature: Option<u32>,
    pub n: Option<u8>,
    pub model: Option<CompletionModel>,
    pub max_tokens: Option<u16>,
}

impl Default for CompletionParametersBuilder {
    /// A builder with no field set: building it yields the defaults.
    fn default() -> (r: Self)
        ensures
            r.temperature is None,
            r.n is None,
            r.model is None,
            r.max_tokens is None,
    {
        CompletionParametersBuilder { temperature: None, n: None, model: None, max_tokens: None }
    }
}

impl CompletionParametersBuilder {
    pub fn temperature(self, temperature: u32) -> (r: Self)
        ensures
            r == (Self { temperature: Some(temperature), ..self }),
    {
        Self { temperature: Some(temperature), ..self }
    }

    pub fn n(self, n: u8) -> (r: Self)
        ensures
            r == (Self { n: Some(n), ..self }),
    {
        Self { n: Some(n), ..self }
    }

    pub fn model(self, model: CompletionModel) -> (r: Self)
        ensures
            r == (Self { model: Some(model), ..self }),
    {
        Self { model: Some(model), ..self }
    }

    pub fn max_tokens(self, max_tokens: u16) -> (r: Self)
        ensures
            r == (Self { max_tokens: Some(max_tokens), ..self }),
    {
        Self { max_tokens: Some(max_tokens), ..self }
    }

    /// Checks whether the fields set so far are acceptable: a temperature,
    /// if one was set, must not exceed `MAX_TEMPERATURE`.
    pub fn validate(&self) -> (r: Result<(), String>)
        ensures
            r is Ok <==> (self.temperature is None || self.temperature->0 <= MAX_TEMPERATURE),
    {
        if let Some(temperature) = self.temperature {
            if temperature > MAX_TEMPERATURE {
                return Err(String::from_str("temperature must be at most 2.0"));
            }
        }
        Ok(())
    }

    /// Builds the parameters, with the default for every unset field; fails
    /// exactly when `validate` rejects the temperature.
    pub fn build(&self) -> (r: Result<CompletionParameters, String>)
        ensures
            r is Ok <==> (self.temperature is None || self.temperature->0 <= MAX_TEMPERATURE),
            r matches Ok(p) ==> {
                &&& p.spec_temperature() == self.temperature.unwrap_or(DEFAULT_TEMPERATURE)
                &&& p.spec_n() == self.n.unwrap_or(DEFAULT_N)
                &&& p.spec_model() == self.model.unwrap_or(CompletionModel::GPT35)
                &&& p.spec_max_tokens() == self.max_tokens.unwrap_or(DEFAULT_MAX_TOKENS)
            },
    {
        self.validate()?;
        Ok(
            CompletionParameters {
                temperature: self.temperature.unwrap_or(DEFAULT_TEMPERATURE),
                n: self.n.unwrap_or(DEFAULT_N),
                model: self.model.unwrap_or(CompletionModel::GPT35),
                max_tokens: self.max_tokens.unwrap_or(DEFAULT_MAX_TOKENS),
            },
        )
    }
}

} // verus!
