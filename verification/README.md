# chewing

The dictionary, conversion and editor logic of the Chewing intelligent
phonetic (Zhuyin/Bopomofo) input method, as a Verus library whose behaviour is
stated in `requires`/`ensures` contracts and proved.

- `src/zhuyin.rs`: packed syllables and their Bopomofo text.
- `src/der.rs`: the DER encoding used by dictionary files.
- `src/dictionary/`: phrases, the trie dictionary file format and its
  builder, the buffered user dictionary, layered dictionaries, dictionary
  usages, loading decisions and the old `uhash.dat` formats.
- `src/conversion/`: compositions, the simple engine, and the Chewing
  engine's candidate search (best phrases per range, alternative paths,
  trimming and gluing).
- `src/editor.rs`: the editor state, options and candidate pages.
- `app/lib.rs`: file access, search paths and the floating-point ranking of
  conversions.
- `tests/`: tests of the library.
