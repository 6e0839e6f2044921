//! The settings of a run, and the signature that they hide.
//!
//! The signature is kept obfuscated, so that the settings themselves do not
//! hold the very text that the tool looks for.

use crate::extensions::ExtensionSet;
use crate::text::push_char;
use vstd::prelude::*;
use vstd::utf8::encode_utf8;

verus! {

/// How the signature is obfuscated.
#[derive(Debug, Clone, Copy, PartialEq, Eq, Structural)]
pub enum EncodeType {
    /// The signature is stored as it is.
    Plain,
    /// Each byte of the signature is stored xor-ed with the key.
    Xor,
}

/// The settings of a run.
#[derive(Debug)]
pub struct Config {
    /// The signature, obfuscated as `enc_type` says.
    pub string: String,
    pub enc_type: EncodeType,
    /// The key of the obfuscation.
    pub enc_key: u8,
    /// The extensions of the files that are rewritten.
    pub search_ext: ExtensionSet,
    /// The text that takes the place of the signature.
    pub replace_str: String,
}

/// The text that `bytes` hide under `key`: each byte, xor-ed with the key,
/// is the code point of one character.
pub open spec fn xor_decoded(bytes: Seq<u8>, key: u8) -> Seq<char> {
    Seq::new(bytes.len(), |i: int| (bytes[i] ^ key) as char)
}

/// The signature that is stored as `stored`.
pub open spec fn deobfuscated(stored: Seq<char>, enc_type: EncodeType, key: u8) -> Seq<char> {
    match enc_type {
        EncodeType::Plain => stored,
        EncodeType::Xor => xor_decoded(encode_utf8(stored), key),
    }
}

/// Recovers the signature from its stored form.
pub fn deobfuscate(stored: &str, enc_type: EncodeType, key: u8) -> (signature: String)
    ensures
        signature@ == deobfuscated(stored@, enc_type, key),
{
    match enc_type {
        EncodeType::Plain => stored.to_owned(),
        EncodeType::Xor => {
            let bytes = stored.as_bytes();
            let mut signature = String::new();
            let mut i: usize = 0;
            while i < bytes.len()
                invariant
                    i <= bytes@.len(),
                    bytes@ == encode_utf8(stored@),
                    signature@ == xor_decoded(bytes@, key).take(i as int),
                decreases bytes@.len() - i,
            {
                let c = (bytes[i] ^ key) as char;
                push_char(&mut signature, c);
                i += 1;
            }
            signature
        },
    }
}

/// `c` is one of the digits `0` to `9`.
pub open spec fn is_decimal_digit(c: char) -> bool {
    0x30 <= c as u32 <= 0x39
}

/// The number that the digits of `digits` spell in base ten, the most
/// significant digit first.
pub open spec fn decimal_value(digits: Seq<char>) -> nat
    decreases digits.len(),
{
    if digits.len() == 0 {
        0
    } else {
        10 * decimal_value(digits.drop_last()) + (digits.last() as u32 - 0x30) as nat
    }
}

/// The text `s` without the plus sign that may lead it.
pub open spec fn unsigned_part(s: Seq<char>) -> Seq<char> {
    if s.len() > 0 && s[0] == '+' {
        s.skip(1)
    } else {
        s
    }
}

/// `digits` holds one digit or more, and nothing else.
pub open spec fn is_numeral(digits: Seq<char>) -> bool {
    &&& digits.len() > 0
    &&& forall|i: int| 0 <= i < digits.len() ==> is_decimal_digit(#[trigger] digits[i])
}

/// The number that the text `s` spells, if it spells one: a plus sign or
/// none, then one digit or more, and nothing else. Zeros may lead.
pub open spec fn spelled_number(s: Seq<char>) -> Option<nat> {
    if is_numeral(unsigned_part(s)) {
        Some(decimal_value(unsigned_part(s)))
    } else {
        None
    }
}

/// Calls `clap_num::number_range`, which parses `s` as the standard
/// library parses an unsigned number and holds the number against the
/// bounds, both inclusive. The contract claims that the call succeeds
/// exactly on the texts that spell a number within the bounds, and that it
/// returns that number; of the message that comes with a failure it claims
/// nothing. In a debug build the outside function panics where `min`
/// exceeds `max`.
#[verifier::external_body]
fn number_range(s: &str, min: usize, max: usize) -> (r: Result<usize, String>)
    requires
        min <= max,
    ensures
        r is Ok <==> (spelled_number(s@) matches Some(n) && min <= n <= max),
        r matches Ok(n) ==> spelled_number(s@) == Some(n as nat),
{
    clap_num::number_range(s, min, max)
}

/// The greatest ceiling on concurrency that the command line takes.
pub const MAX_CONCURRENT_ARG: usize = 255;

/// Reads the ceiling on concurrency from its command-line argument. The
/// argument is taken exactly if it spells a number from 0 to 255, which is
/// then returned; any other text is turned down, with the reason.
pub fn cmd_args_concurrent_parser(s: &str) -> (r: Result<usize, String>)
    ensures
        r is Ok <==> (spelled_number(s@) matches Some(n) && n <= MAX_CONCURRENT_ARG),
        r matches Ok(n) ==> spelled_number(s@) == Some(n as nat),
{
    number_range(s, 0, MAX_CONCURRENT_ARG)
}

impl Config {
    /// These are the settings that `Config::default` makes.
    pub open spec fn is_default(&self) -> bool {
        &&& self.string@
            == "'J0^/Z?>/$K#/%'JKW/!VH<<VH\x02[:6<>-R,+>1;>-;R>1+6)6-*,R+:,+R963:^[7T7U"@
        &&& self.enc_type == EncodeType::Xor
        &&& self.enc_key == 0x7f
        &&& self.search_ext.wf()
        &&& self.search_ext@ == set!["txt"@, "res"@, "req"@]
        &&& self.replace_str@ == "<ここにEICAR-TEST-FILE文字列が入ります>"@
    }

    /// Settles the settings of a run once the attempt to load them has
    /// ended: loaded settings stand; where none could be loaded, the
    /// defaults take their place and are to be written out. The flag says
    /// whether they are.
    pub fn or_default(loaded: Option<Config>) -> (r: (Config, bool))
        ensures
            match loaded {
                Some(config) => r.0 == config && !r.1,
                None => r.0.is_default() && r.1,
            },
    {
        match loaded {
            Some(config) => (config, false),
            None => (Config::default(), true),
        }
    }

    /// The signature that the settings hide.
    pub open spec fn signature_text(&self) -> Seq<char> {
        deobfuscated(self.string@, self.enc_type, self.enc_key)
    }

    /// The signature that the settings hide.
    pub fn signature(&self) -> (signature: String)
        ensures
            signature@ == self.signature_text(),
    {
        deobfuscate(self.string.as_str(), self.enc_type, self.enc_key)
    }
}

impl Default for Config {
    /// The settings that are used, and written out, where none can be
    /// loaded: the test signature under the key `0x7f`, three extensions,
    /// and a placeholder for the replacement.
    fn default() -> (config: Config)
        ensures
            config.is_default(),
    {
        let mut hs = ExtensionSet::new();
        hs.insert("txt".to_owned());
        hs.insert("res".to_owned());
        hs.insert("req".to_owned());
        Config {
            string: "'J0^/Z?>/$K#/%'JKW/!VH<<VH\x02[:6<>-R,+>1;>-;R>1+6)6-*,R+:,+R963:^[7T7U".to_owned(),
            enc_type: EncodeType::Xor,
            enc_key: 0x7f,
            search_ext: hs,
            replace_str: "<ここにEICAR-TEST-FILE文字列が入ります>".to_owned(),
        }
    }
}

} // verus!
