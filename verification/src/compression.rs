//! The compression level that an archive (or an item in it) is written with.

use vstd::prelude::*;
use crate::text::{ascii_lower, ascii_lowercase, chars_equal, chars_of, lowercase_chars};

verus! {

/// How hard bzip2 works when an item is added to an archive.
#[derive(Clone, Copy, Debug, PartialEq, Eq, Structural)]
pub enum CompressionType {
    Fast,
    Best,
    Default,
}

/// The name `fast`.
pub open spec fn fast_name() -> Seq<char> {
    seq!['f', 'a', 's', 't']
}

/// The name `best`.
pub open spec fn best_name() -> Seq<char> {
    seq!['b', 'e', 's', 't']
}

/// The name `default`.
pub open spec fn default_name() -> Seq<char> {
    seq!['d', 'e', 'f', 'a', 'u', 'l', 't']
}

impl CompressionType {
    /// The number that stands for this level in an archive's general header
    /// (1, 2 or 3).
    pub open spec fn code(self) -> u8 {
        match self {
            CompressionType::Fast => 1,
            CompressionType::Best => 2,
            CompressionType::Default => 3,
        }
    }

    /// The level whose code is `value`, if any.
    pub open spec fn spec_from_u8(value: u8) -> Option<CompressionType> {
        if value == 1 {
            Some(CompressionType::Fast)
        } else if value == 2 {
            Some(CompressionType::Best)
        } else if value == 3 {
            Some(CompressionType::Default)
        } else {
            None
        }
    }

    /// The level that a name denotes, compared without regard to ASCII case.
    pub open spec fn spec_from_name(value: Seq<char>) -> Option<CompressionType> {
        let v = ascii_lowercase(value);
        if v == fast_name() {
            Some(CompressionType::Fast)
        } else if v == best_name() {
            Some(CompressionType::Best)
        } else if v == default_name() {
            Some(CompressionType::Default)
        } else {
            None
        }
    }

    /// The bzip2 block level used for this compression type
    /// (bzip2's `fast`, `best` and `default` levels).
    pub open spec fn spec_bzip2_level(self) -> u32 {
        match self {
            CompressionType::Fast => 1,
            CompressionType::Best => 9,
            CompressionType::Default => 6,
        }
    }

    /// The level whose code is `value`; `None` for any other number.
    pub fn from_u8(value: u8) -> (res: Option<Self>)
        ensures
            res == Self::spec_from_u8(value),
    {
        match value {
            1 => Some(CompressionType::Fast),
            2 => Some(CompressionType::Best),
            3 => Some(CompressionType::Default),
            _ => None,
        }
    }

    /// The code of this level.
    pub fn to_u8(&self) -> (res: u8)
        ensures
            res == self.code(),
    {
        match self {
            CompressionType::Fast => 1,
            CompressionType::Best => 2,
            CompressionType::Default => 3,
        }
    }

    /// Whether `value` names a level (`fast`, `best` or `default`, in any
    /// ASCII case).
    pub fn is_valid(value: &str) -> (res: bool)
        ensures
            res == Self::spec_from_name(value@).is_some(),
    {
        Self::from_str(value).is_some()
    }

    /// The level that `value` names (`fast`, `best` or `default`, in any
    /// ASCII case).
    pub fn from_str(value: &str) -> (res: Option<Self>)
        ensures
            res == Self::spec_from_name(value@),
    {
        let chars = chars_of(value);
        let lowered = lowercase_chars(chars.as_slice());
        let fast = ['f', 'a', 's', 't'];
        let best = ['b', 'e', 's', 't'];
        let default = ['d', 'e', 'f', 'a', 'u', 'l', 't'];
        assert(fast@ == fast_name());
        assert(best@ == best_name());
        assert(default@ == default_name());
        if chars_equal(lowered.as_slice(), fast.as_slice()) {
            Some(CompressionType::Fast)
        } else if chars_equal(lowered.as_slice(), best.as_slice()) {
            Some(CompressionType::Best)
        } else if chars_equal(lowered.as_slice(), default.as_slice()) {
            Some(CompressionType::Default)
        } else {
            None
        }
    }

    /// The bzip2 level (1 to 9) that this compression type is written with.
    pub fn bzip2_level(&self) -> (res: u32)
        ensures
            res == self.spec_bzip2_level(),
            1 <= res <= 9,
    {
        match self {
            CompressionType::Fast => 1,
            CompressionType::Best => 9,
            CompressionType::Default => 6,
        }
    }
}

impl Default for CompressionType {
    /// The default compression is `Fast`: what an archive is created with
    /// when no question is asked, and what "use the default compression"
    /// chooses.
    fn default() -> (res: Self)
        ensures
            res == CompressionType::Fast,
    {
        CompressionType::Fast
    }
}

/// Reading a level back from its code gives the same level.
pub proof fn law_code_round_trip(c: CompressionType)
    ensures
        CompressionType::spec_from_u8(c.code()) == Some(c),
{
}

/// A number that is accepted as a code is the code of the level it gives.
pub proof fn law_from_u8_round_trip(value: u8)
    ensures
        CompressionType::spec_from_u8(value) matches Some(c) ==> c.code() == value,
        CompressionType::spec_from_u8(value) is Some <==> 1 <= value <= 3,
{
}

/// Names are compared without regard to ASCII case: lower-casing a name
/// first does not change the level it names.
pub proof fn law_name_ignores_case(value: Seq<char>)
    ensures
        CompressionType::spec_from_name(ascii_lowercase(value)) == CompressionType::spec_from_name(
            value,
        ),
{
    assert(ascii_lowercase(ascii_lowercase(value)) =~= ascii_lowercase(value)) by {
        assert forall|i: int| 0 <= i < value.len() implies #[trigger] ascii_lowercase(
            ascii_lowercase(value),
        )[i] == ascii_lowercase(value)[i] by {
            let c = value[i];
            assert(ascii_lowercase(value)[i] == ascii_lower(c));
            assert(ascii_lower(ascii_lower(c)) == ascii_lower(c));
        }
    }
}

/// Two names that differ only in ASCII case (such as `fast` and `FAST`)
/// name the same level, or both name none.
pub proof fn law_names_equal_up_to_case(a: Seq<char>, b: Seq<char>)
    requires
        ascii_lowercase(a) == ascii_lowercase(b),
    ensures
        CompressionType::spec_from_name(a) == CompressionType::spec_from_name(b),
{
}

} // verus!
