use vstd::prelude::*;

use crate::error::Error;
use crate::text::{chars_of, contains_seq, range_contains};

verus! {

/// Whether `goblin::Object::parse` takes `bytes` for ELF: at least sixteen
/// bytes that begin with the ELF magic `\x7fELF`. Other bytes it hands to
/// its other parsers, or rejects; none of them is an ELF library.
pub open spec fn elf_hinted(bytes: Seq<u8>) -> bool {
    &&& bytes.len() >= 16
    &&& bytes[0] == 0x7fu8
    &&& bytes[1] == 0x45u8
    &&& bytes[2] == 0x4cu8
    &&& bytes[3] == 0x46u8
}

/// Whether `bytes` are taken for ELF.
pub fn is_elf_hinted(bytes: &[u8]) -> (b: bool)
    ensures
        b == elf_hinted(bytes@),
{
    bytes.len() >= 16 && bytes[0] == 0x7fu8 && bytes[1] == 0x45u8 && bytes[2] == 0x4cu8
        && bytes[3] == 0x46u8
}

/// What `goblin::elf::Elf::parse` makes of `bytes`, reduced to what this
/// library reads of it: `None` where parsing fails; else whether the
/// object is a shared library (`is_lib`) and the strings of its dynamic
/// string table as `Strtab::to_vec` lists them (`None` where that fails).
pub uninterp spec fn goblin_elf_parse(bytes: Seq<u8>) -> Option<(bool, Option<Seq<Seq<char>>>)>;

/// The characters of each string.
pub open spec fn strings_view(v: Seq<String>) -> Seq<Seq<char>> {
    v.map_values(|s: String| s@)
}

/// The plain value of a parsed ELF object.
pub open spec fn elf_view(r: Option<(bool, Option<Vec<String>>)>) -> Option<
    (bool, Option<Seq<Seq<char>>>),
> {
    match r {
        None => None,
        Some((is_lib, strings)) => Some(
            (
                is_lib,
                match strings {
                    None => None,
                    Some(v) => Some(strings_view(v@)),
                },
            ),
        ),
    }
}

/// Calls `goblin::elf::Elf::parse` on `bytes`, reads the object's `is_lib`
/// flag and calls `Strtab::to_vec` on its dynamic string table. The claim
/// is only that the result is a function of the bytes, named
/// `goblin_elf_parse`; what goblin finds in them is not stated. It is only
/// given bytes that `goblin::Object::parse` would hand to the same parser.
#[verifier::external_body]
fn parse_elf(bytes: &[u8]) -> (r: Option<(bool, Option<Vec<String>>)>)
    requires
        elf_hinted(bytes@),
    ensures
        elf_view(r) == goblin_elf_parse(bytes@),
{
    match goblin::elf::Elf::parse(bytes) {
        Err(_) => None,
        Ok(lib) => Some(
            (
                lib.is_lib,
                lib.dynstrtab.to_vec().ok().map(
                    |v| v.into_iter().map(|s| s.to_string()).collect(),
                ),
            ),
        ),
    }
}

/// Whether the symbol `sym` contains every keyword of `keywords`.
pub open spec fn matches_all(sym: Seq<char>, keywords: Seq<Seq<char>>) -> bool {
    forall|i: int| 0 <= i < keywords.len() ==> contains_seq(sym, #[trigger] keywords[i])
}

/// Whether `k` is the first symbol of `symbols` that contains every keyword.
pub open spec fn is_first_match(symbols: Seq<Seq<char>>, keywords: Seq<Seq<char>>, k: int) -> bool {
    &&& 0 <= k < symbols.len()
    &&& matches_all(symbols[k], keywords)
    &&& forall|j: int| 0 <= j < k ==> !matches_all(#[trigger] symbols[j], keywords)
}

/// The dynamic symbols of the library to hook, by name.
pub struct SymbolHooker {
    symbols: Vec<String>,
}

impl SymbolHooker {
    /// The symbol names, in table order.
    pub closed spec fn symbols_spec(&self) -> Seq<Seq<char>> {
        strings_view(self.symbols@)
    }

    /// The hooker for a parsed ELF object (`None` for bytes that are no
    /// parseable ELF object): its dynamic strings where it is a shared
    /// library whose string table could be read, else `Error::LibParse`.
    pub fn from_scan(scan: Option<(bool, Option<Vec<String>>)>) -> (r: Result<SymbolHooker, Error>)
        ensures
            match elf_view(scan) {
                Some((true, Some(strings))) => r matches Ok(h) && h.symbols_spec() == strings,
                _ => r matches Err(Error::LibParse),
            },
    {
        match scan {
            Some((true, Some(symbols))) => Ok(SymbolHooker { symbols }),
            _ => Err(Error::LibParse),
        }
    }

    /// The hooker for the library whose file holds `buffer`: bytes that
    /// are not ELF give `Error::LibParse`.
    pub fn new(buffer: &[u8]) -> (r: Result<SymbolHooker, Error>)
        ensures
            !elf_hinted(buffer@) ==> r matches Err(Error::LibParse),
            elf_hinted(buffer@) ==> match goblin_elf_parse(buffer@) {
                Some((true, Some(strings))) => r matches Ok(h) && h.symbols_spec() == strings,
                _ => r matches Err(Error::LibParse),
            },
    {
        if !is_elf_hinted(buffer) {
            return Err(Error::LibParse);
        }
        Self::from_scan(parse_elf(buffer))
    }

    /// The first symbol that contains every keyword; `Error::Symbol` where
    /// none does.
    pub fn find_symbol(&self, keywords: &Vec<String>) -> (r: Result<String, Error>)
        ensures
            match r {
                Ok(name) => exists|k: int|
                    #[trigger] is_first_match(self.symbols_spec(), strings_view(keywords@), k)
                        && name@ == self.symbols_spec()[k],
                Err(e) => e is Symbol && forall|k: int|
                    0 <= k < self.symbols_spec().len() ==> !matches_all(
                        #[trigger] self.symbols_spec()[k],
                        strings_view(keywords@),
                    ),
            },
    {
        let ghost kws = strings_view(keywords@);
        let ghost syms = self.symbols_spec();
        let mut kw_chars: Vec<Vec<char>> = Vec::new();
        let mut i: usize = 0;
        while i < keywords.len()
            invariant
                i <= keywords.len(),
                kw_chars@.len() == i,
                kws == strings_view(keywords@),
                forall|t: int| 0 <= t < i ==> #[trigger] kw_chars@[t]@ == kws[t],
            decreases keywords.len() - i,
        {
            let c = chars_of(keywords[i].as_str());
            kw_chars.push(c);
            i = i + 1;
        }
        let mut k: usize = 0;
        while k < self.symbols.len()
            invariant
                k <= self.symbols.len(),
                syms == self.symbols_spec(),
                kws == strings_view(keywords@),
                syms.len() == self.symbols@.len(),
                kw_chars@.len() == kws.len(),
                forall|t: int| 0 <= t < kws.len() ==> #[trigger] kw_chars@[t]@ == kws[t],
                forall|j: int| 0 <= j < k ==> !matches_all(#[trigger] syms[j], kws),
            decreases self.symbols.len() - k,
        {
            let sym = chars_of(self.symbols[k].as_str());
            assert(sym@ == syms[k as int]);
            assert(sym@.subrange(0, sym.len() as int) =~= sym@);
            let mut all = true;
            let mut t: usize = 0;
            while t < kw_chars.len()
                invariant
                    t <= kw_chars.len(),
                    k < syms.len(),
                    sym@ == syms[k as int],
                    sym@.subrange(0, sym.len() as int) == sym@,
                    kw_chars@.len() == kws.len(),
                    forall|u: int| 0 <= u < kws.len() ==> #[trigger] kw_chars@[u]@ == kws[u],
                    all == (forall|u: int| 0 <= u < t ==> contains_seq(sym@, #[trigger] kws[u])),
                decreases kw_chars.len() - t,
            {
                let found = range_contains(&sym, 0, sym.len(), &kw_chars[t]);
                if !found {
                    all = false;
                }
                t = t + 1;
            }
            if all {
                let name = self.symbols[k].clone();
                assert(matches_all(syms[k as int], kws));
                assert(is_first_match(self.symbols_spec(), strings_view(keywords@), k as int)
                    && name@ == self.symbols_spec()[k as int]);
                return Ok(name);
            }
            k = k + 1;
        }
        Err(Error::Symbol)
    }
}

proof fn lemma_matches_all_subset(sym: Seq<char>, a: Seq<Seq<char>>, b: Seq<Seq<char>>)
    requires
        a.to_set() == b.to_set(),
        matches_all(sym, b),
    ensures
        matches_all(sym, a),
{
    assert forall|i: int| 0 <= i < a.len() implies contains_seq(sym, #[trigger] a[i]) by {
        assert(a.to_set().contains(a[i]));
        assert(b.to_set().contains(a[i]));
        assert(b.contains(a[i]));
        let j = choose|j: int| 0 <= j < b.len() && b[j] == a[i];
        assert(contains_seq(sym, b[j]));
    }
}

/// Only the set of keywords matters to `find_symbol`: their order and
/// repeats change nothing.
pub proof fn law_find_symbol_keyword_set(
    symbols: Seq<Seq<char>>,
    a: Seq<Seq<char>>,
    b: Seq<Seq<char>>,
)
    requires
        a.to_set() == b.to_set(),
    ensures
        forall|sym: Seq<char>| matches_all(sym, a) == matches_all(sym, b),
        forall|k: int| is_first_match(symbols, a, k) == is_first_match(symbols, b, k),
{
    assert forall|sym: Seq<char>| matches_all(sym, a) == matches_all(sym, b) by {
        if matches_all(sym, b) {
            lemma_matches_all_subset(sym, a, b);
        }
        if matches_all(sym, a) {
            lemma_matches_all_subset(sym, b, a);
        }
    }
}

/// With no keywords, the first symbol is found.
pub proof fn law_find_symbol_no_keywords(symbols: Seq<Seq<char>>)
    requires
        symbols.len() > 0,
    ensures
        is_first_match(symbols, Seq::empty(), 0),
{
}

} // verus!
