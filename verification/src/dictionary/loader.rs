//! The decisions of locating and loading dictionaries: which usage a file
//! name has, which format a file extension names, and which path is used.
//! Reading and writing the files is left to the caller.

use vstd::prelude::*;

use crate::dictionary::layered::AnyDictionary;
use crate::dictionary::trie_buf::{TrieBuf, same_text};
use crate::dictionary::usage::DictionaryUsage;
use vstd::string::StrSliceExecFns;

verus! {

/// The file name of the old text or binary user dictionary.
pub const UD_UHASH_FILE_NAME: &'static str = "uhash.dat";

/// The file name of a user dictionary stored in SQLite.
pub const UD_SQLITE_FILE_NAME: &'static str = "chewing.sqlite3";

/// The path that stands for a user dictionary kept in memory.
pub const UD_MEM_FILE_NAME: &'static str = ":memory:";

/// The usage of a dictionary found under a file name.
pub open spec fn usage_of_file_name(name: Seq<char>) -> DictionaryUsage {
    if name == "tsi.dat"@ || name == "word.dat"@ {
        DictionaryUsage::BuiltIn
    } else if name == "chewing.dat"@ {
        DictionaryUsage::User
    } else if name == "chewing-deleted.dat"@ {
        DictionaryUsage::ExcludeList
    } else {
        DictionaryUsage::Unknown
    }
}

/// The usage of a dictionary found under a file name.
pub fn usage_for_file_name(name: &str) -> (u: DictionaryUsage)
    ensures
        u == usage_of_file_name(name@),
{
    if same_text(name, "tsi.dat") || same_text(name, "word.dat") {
        DictionaryUsage::BuiltIn
    } else if same_text(name, "chewing.dat") {
        DictionaryUsage::User
    } else if same_text(name, "chewing-deleted.dat") {
        DictionaryUsage::ExcludeList
    } else {
        DictionaryUsage::Unknown
    }
}

/// Automatically searches and loads dictionaries.
#[derive(Debug)]
pub struct AssetLoader {
    /// The search path overriding the default one.
    pub search_path: Option<String>,
}

impl AssetLoader {
    /// Creates a new dictionary loader.
    pub fn new() -> (l: AssetLoader)
        ensures
            l.search_path is None,
    {
        AssetLoader { search_path: None }
    }

    /// Overrides the default dictionary search path.
    pub fn search_path(self, search_path: String) -> (l: AssetLoader)
        ensures
            l.search_path matches Some(p) && p@ == search_path@,
    {
        AssetLoader { search_path: Some(search_path) }
    }

    /// The search path: the overriding one, or `default`.
    pub fn resolved_search_path(&self, default: String) -> (p: String)
        ensures
            p@ == match self.search_path {
                Some(s) => s@,
                None => default@,
            },
    {
        match &self.search_path {
            Some(s) => s.clone(),
            None => default,
        }
    }
}

/// Automatically searches and initializes the user dictionary.
#[derive(Debug)]
pub struct UserDictionaryManager {
    /// The user dictionary path overriding the default one.
    pub data_path: Option<String>,
}

/// Whether the last component of a `/` separated path is `name`.
pub open spec fn last_component_is(path: Seq<char>, name: Seq<char>) -> bool {
    path == name || (path.len() > name.len() && path.subrange(path.len() - name.len(), path.len() as int)
        == name && path[path.len() - name.len() - 1] == '/')
}

impl UserDictionaryManager {
    /// Creates a user dictionary manager.
    pub fn new() -> (m: UserDictionaryManager)
        ensures
            m.data_path is None,
    {
        UserDictionaryManager { data_path: None }
    }

    /// Overrides the default user dictionary path.
    pub fn userphrase_path(self, path: String) -> (m: UserDictionaryManager)
        ensures
            m.data_path matches Some(p) && p@ == path@,
    {
        UserDictionaryManager { data_path: Some(path) }
    }

    /// The user dictionary path: the overriding one, or `default`.
    pub fn resolved_path(&self, default: Option<String>) -> (p: Option<String>)
        ensures
            p == match self.data_path {
                Some(s) => Some(s),
                None => default,
            },
    {
        match &self.data_path {
            Some(s) => Some(s.clone()),
            None => default,
        }
    }

    /// Whether a path names the in-memory user dictionary.
    pub fn is_in_memory_path(path: &str) -> (b: bool)
        ensures
            b == last_component_is(path@, ":memory:"@),
    {
        let name = ":memory:";
        proof {
            reveal_strlit(":memory:");
        }
        let pl = path.unicode_len();
        let nl = name.unicode_len();
        if pl == nl {
            return same_text(path, name);
        }
        if pl < nl + 1 {
            return false;
        }
        let mut i: usize = 0;
        while i < nl
            invariant
                i <= nl,
                nl == name@.len(),
                name@ == ":memory:"@,
                pl == path@.len(),
                pl >= nl + 1,
                forall|j: int| 0 <= j < i ==> path@[pl - nl + j] == name@[j],
            decreases nl - i,
        {
            if path.get_char(pl - nl + i) != name.get_char(i) {
                proof {
                    assert(path@.subrange(pl - nl, pl as int)[i as int] != name@[i as int]);
                    assert(path@.subrange(pl - nl, pl as int) != name@);
                }
                return false;
            }
            i = i + 1;
        }
        assert(path@.subrange(pl - nl, pl as int) =~= name@);
        path.get_char(pl - nl - 1) == '/'
    }

    /// Creates an in-memory user dictionary.
    pub fn in_memory() -> (d: AnyDictionary)
        ensures
            d matches AnyDictionary::TrieBufDictionary(b) && b.trie_view() is None && b.buffer().len() == 0
                && b.removed().len() == 0 && b.wf(),
    {
        AnyDictionary::TrieBufDictionary(TrieBuf::new_in_memory())
    }
}

/// The formats a dictionary file can have.
#[derive(Debug, Clone, Copy, PartialEq, Eq, Structural)]
pub enum DictionaryFormat {
    /// A SQLite database.
    Sqlite,
    /// A trie dictionary file.
    Trie,
    /// A format that cannot be loaded.
    Unknown,
}

/// Lower-cases an ASCII letter.
pub open spec fn ascii_lower(c: char) -> char {
    if 'A' <= c <= 'Z' {
        ((c as u32) + 32) as char
    } else {
        c
    }
}

/// Whether two texts are equal ignoring ASCII case.
pub open spec fn eq_ignore_ascii_case(a: Seq<char>, b: Seq<char>) -> bool {
    a.len() == b.len() && forall|i: int| 0 <= i < a.len() ==> ascii_lower(#[trigger] a[i]) == ascii_lower(b[i])
}

/// Loads dictionaries of the formats the library knows.
#[derive(Debug)]
pub struct SingleDictionaryLoader {
    /// Whether SQLite dictionaries are opened for migration.
    pub migrate_sqlite: bool,
}

impl SingleDictionaryLoader {
    /// Creates a loader that does not migrate.
    pub fn new() -> (l: SingleDictionaryLoader)
        ensures
            !l.migrate_sqlite,
    {
        SingleDictionaryLoader { migrate_sqlite: false }
    }

    /// Sets whether SQLite dictionaries are opened for migration.
    pub fn migrate_sqlite(&mut self, migrate: bool)
        ensures
            final(self).migrate_sqlite == migrate,
    {
        self.migrate_sqlite = migrate;
    }

    /// The format named by a file extension.
    pub fn format_for_extension(ext: &str) -> (f: DictionaryFormat)
        ensures
            f == if eq_ignore_ascii_case(ext@, "sqlite3"@) {
                DictionaryFormat::Sqlite
            } else if eq_ignore_ascii_case(ext@, "dat"@) {
                DictionaryFormat::Trie
            } else {
                DictionaryFormat::Unknown
            },
    {
        if eq_ignore_case(ext, "sqlite3") {
            DictionaryFormat::Sqlite
        } else if eq_ignore_case(ext, "dat") {
            DictionaryFormat::Trie
        } else {
            DictionaryFormat::Unknown
        }
    }
}

/// Lower-cases an ASCII letter.
fn lower(c: char) -> (r: char)
    ensures
        r == ascii_lower(c),
{
    if 'A' <= c && c <= 'Z' {
        let v = (c as u8) + 32;
        v as char
    } else {
        c
    }
}

/// Whether two texts are equal ignoring ASCII case.
fn eq_ignore_case(a: &str, b: &str) -> (r: bool)
    ensures
        r == eq_ignore_ascii_case(a@, b@),
{
    let al = a.unicode_len();
    let bl = b.unicode_len();
    if al != bl {
        return false;
    }
    let mut i: usize = 0;
    while i < al
        invariant
            i <= al,
            al == a@.len(),
            bl == b@.len(),
            al == bl,
            forall|j: int| 0 <= j < i ==> ascii_lower(#[trigger] a@[j]) == ascii_lower(b@[j]),
        decreases al - i,
    {
        if lower(a.get_char(i)) != lower(b.get_char(i)) {
            return false;
        }
        i = i + 1;
    }
    true
}

/// Errors during loading system or user dictionaries.
#[derive(Debug)]
pub struct LoadDictionaryError {
    /// What failed.
    pub msg: String,
}

impl LoadDictionaryError {
    /// An error with a message.
    pub fn new(msg: &str) -> (e: LoadDictionaryError)
        ensures
            e.msg@ == msg@,
    {
        LoadDictionaryError { msg: msg.to_owned() }
    }

    /// The message of the error.
    pub fn to_string(&self) -> (s: String)
        ensures
            s@ == self.msg@,
    {
        self.msg.clone()
    }
}

/// The dictionaries searched by default are used as documented: the
/// single characters of `word.dat` and the phrases of `tsi.dat` are
/// built in, `chewing.dat` is the user dictionary and
/// `chewing-deleted.dat` the list of excluded phrases; any other file name
/// has no known usage.
pub proof fn law_default_dictionary_usages()
    ensures
        usage_of_file_name("word.dat"@) == DictionaryUsage::BuiltIn,
        usage_of_file_name("tsi.dat"@) == DictionaryUsage::BuiltIn,
        usage_of_file_name("chewing.dat"@) == DictionaryUsage::User,
        usage_of_file_name("chewing-deleted.dat"@) == DictionaryUsage::ExcludeList,
        forall|name: Seq<char>|
            name != "word.dat"@ && name != "tsi.dat"@ && name != "chewing.dat"@ && name != "chewing-deleted.dat"@
                ==> #[trigger] usage_of_file_name(name) == DictionaryUsage::Unknown,
{
    reveal_strlit("word.dat");
    reveal_strlit("tsi.dat");
    reveal_strlit("chewing.dat");
    reveal_strlit("chewing-deleted.dat");
    assert("word.dat"@ != "tsi.dat"@) by {
        assert("word.dat"@[0] != "tsi.dat"@[0]);
    }
    assert("chewing.dat"@ != "tsi.dat"@) by {
        assert("chewing.dat"@.len() != "tsi.dat"@.len());
    }
    assert("chewing.dat"@ != "word.dat"@) by {
        assert("chewing.dat"@.len() != "word.dat"@.len());
    }
    assert("chewing-deleted.dat"@ != "tsi.dat"@) by {
        assert("chewing-deleted.dat"@.len() != "tsi.dat"@.len());
    }
    assert("chewing-deleted.dat"@ != "word.dat"@) by {
        assert("chewing-deleted.dat"@.len() != "word.dat"@.len());
    }
    assert("chewing-deleted.dat"@ != "chewing.dat"@) by {
        assert("chewing-deleted.dat"@.len() != "chewing.dat"@.len());
    }
}

} // verus!
