//! The state of a serde-style deserializer: a decoder over the input bytes.
use crate::decoder::{spec_default_config, Decoder, DecoderConfig};
use vstd::prelude::*;

verus! {

/// A deserializer that reads BONJSON from a byte slice.
pub struct Deserializer<'de> {
    decoder: Decoder<'de>,
}

impl<'de> Deserializer<'de> {
    /// The decoder that the deserializer reads with.
    pub closed spec fn decoder_state(&self) -> Decoder<'de> {
        self.decoder
    }

    /// Create a new Deserializer from a byte slice.
    pub fn from_slice(data: &'de [u8]) -> (r: Self)
        ensures
            r.decoder_state().wf(),
            r.decoder_state().input() == data@,
            r.decoder_state().pos() == 0,
            r.decoder_state().depth() == 0,
            r.decoder_state().cfg() == spec_default_config(),
    {
        Self { decoder: Decoder::new(data) }
    }

    /// Create a new Deserializer with custom configuration.
    pub fn from_slice_with_config(data: &'de [u8], config: DecoderConfig) -> (r: Self)
        ensures
            r.decoder_state().wf(),
            r.decoder_state().input() == data@,
            r.decoder_state().pos() == 0,
            r.decoder_state().depth() == 0,
            r.decoder_state().cfg() == config,
    {
        Self { decoder: Decoder::with_config(data, config) }
    }

    /// Get the underlying decoder (consumes self).
    pub fn into_decoder(self) -> (r: Decoder<'de>)
        ensures
            r == self.decoder_state(),
    {
        self.decoder
    }
}

} // verus!
