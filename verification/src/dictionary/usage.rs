//! The intended usage of a dictionary.

use vstd::prelude::*;

use crate::dictionary::trie_buf::same_text;

verus! {

/// The intended usage of the dictionary.
#[derive(Debug, Clone, Copy, PartialEq, Eq, Structural)]
pub enum DictionaryUsage {
    /// Default value
    Unknown,
    /// A built-in dictionary
    BuiltIn,
    /// A contributed extension
    Extension,
    /// A local custom dictionary
    Custom,
    /// A user dictionary
    User,
    /// A exclusion user dictionary
    ExcludeList,
}

/// The usage with code `v`: 1 to 5 in declaration order after `Unknown`,
/// anything else `Unknown`.
pub open spec fn usage_of_code(v: u8) -> DictionaryUsage {
    if v == 1 {
        DictionaryUsage::BuiltIn
    } else if v == 2 {
        DictionaryUsage::Extension
    } else if v == 3 {
        DictionaryUsage::Custom
    } else if v == 4 {
        DictionaryUsage::User
    } else if v == 5 {
        DictionaryUsage::ExcludeList
    } else {
        DictionaryUsage::Unknown
    }
}

/// The code of a usage.
pub open spec fn code_of_usage(u: DictionaryUsage) -> u8 {
    match u {
        DictionaryUsage::Unknown => 0,
        DictionaryUsage::BuiltIn => 1,
        DictionaryUsage::Extension => 2,
        DictionaryUsage::Custom => 3,
        DictionaryUsage::User => 4,
        DictionaryUsage::ExcludeList => 5,
    }
}

/// The name of a usage.
pub open spec fn usage_name(u: DictionaryUsage) -> Seq<char> {
    match u {
        DictionaryUsage::Unknown => "unknown"@,
        DictionaryUsage::BuiltIn => "built-in"@,
        DictionaryUsage::Extension => "extension"@,
        DictionaryUsage::Custom => "custom"@,
        DictionaryUsage::User => "user"@,
        DictionaryUsage::ExcludeList => "exclude-list"@,
    }
}

/// The usage with a name; an unknown name is `Unknown`.
pub open spec fn usage_of_name(t: Seq<char>) -> DictionaryUsage {
    if t == "unknown"@ {
        DictionaryUsage::Unknown
    } else if t == "built-in"@ {
        DictionaryUsage::BuiltIn
    } else if t == "extension"@ {
        DictionaryUsage::Extension
    } else if t == "custom"@ {
        DictionaryUsage::Custom
    } else if t == "user"@ {
        DictionaryUsage::User
    } else if t == "exclude-list"@ {
        DictionaryUsage::ExcludeList
    } else {
        DictionaryUsage::Unknown
    }
}

impl DictionaryUsage {
    /// The default usage.
    pub fn default_usage() -> (u: DictionaryUsage)
        ensures
            u == DictionaryUsage::Unknown,
    {
        DictionaryUsage::Unknown
    }

    /// The usage with a code ([`usage_of_code`]).
    pub fn from_u8(value: u8) -> (u: DictionaryUsage)
        ensures
            u == usage_of_code(value),
    {
        match value {
            1 => DictionaryUsage::BuiltIn,
            2 => DictionaryUsage::Extension,
            3 => DictionaryUsage::Custom,
            4 => DictionaryUsage::User,
            5 => DictionaryUsage::ExcludeList,
            _ => DictionaryUsage::Unknown,
        }
    }

    /// The code of the usage.
    pub fn to_u8(&self) -> (v: u8)
        ensures
            v == code_of_usage(*self),
    {
        match self {
            DictionaryUsage::Unknown => 0,
            DictionaryUsage::BuiltIn => 1,
            DictionaryUsage::Extension => 2,
            DictionaryUsage::Custom => 3,
            DictionaryUsage::User => 4,
            DictionaryUsage::ExcludeList => 5,
        }
    }

    /// The name of the usage.
    pub fn to_string(&self) -> (s: String)
        ensures
            s@ == usage_name(*self),
    {
        match self {
            DictionaryUsage::Unknown => "unknown".to_owned(),
            DictionaryUsage::BuiltIn => "built-in".to_owned(),
            DictionaryUsage::Extension => "extension".to_owned(),
            DictionaryUsage::Custom => "custom".to_owned(),
            DictionaryUsage::User => "user".to_owned(),
            DictionaryUsage::ExcludeList => "exclude-list".to_owned(),
        }
    }

    /// The usage with a name; an unknown name is `Unknown`.
    pub fn from_name(s: &str) -> (u: DictionaryUsage)
        ensures
            u == usage_of_name(s@),
    {
        if same_text(s, "unknown") {
            DictionaryUsage::Unknown
        } else if same_text(s, "built-in") {
            DictionaryUsage::BuiltIn
        } else if same_text(s, "extension") {
            DictionaryUsage::Extension
        } else if same_text(s, "custom") {
            DictionaryUsage::Custom
        } else if same_text(s, "user") {
            DictionaryUsage::User
        } else if same_text(s, "exclude-list") {
            DictionaryUsage::ExcludeList
        } else {
            DictionaryUsage::Unknown
        }
    }
}

/// Reading a usage back from its code gives it back.
pub proof fn law_usage_code_roundtrip(u: DictionaryUsage)
    ensures
        usage_of_code(code_of_usage(u)) == u,
{
}

/// Reading a usage back from its name gives it back.
pub proof fn law_usage_name_roundtrip(u: DictionaryUsage)
    ensures
        usage_of_name(usage_name(u)) == u,
{
    reveal_strlit("unknown");
    reveal_strlit("built-in");
    reveal_strlit("extension");
    reveal_strlit("custom");
    reveal_strlit("user");
    reveal_strlit("exclude-list");
    assert("unknown"@.len() == 7);
    assert("built-in"@.len() == 8);
    assert("extension"@.len() == 9);
    assert("custom"@.len() == 6);
    assert("user"@.len() == 4);
    assert("exclude-list"@.len() == 12);
}

} // verus!
