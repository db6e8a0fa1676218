use vstd::prelude::*;

use crate::utf8::{is_utf8, utf8_spec};
use crate::bytes::{copy_range, find_from, first, free_of, is_first, lemma_first_exists, lemma_first_unique, append_bytes};

verus! {

/// The field separator of a credential database line.
pub const COLON: u8 = 0x3a;

/// The line terminator.
pub const NEWLINE: u8 = 0x0a;

/// One credential entry: `name:hash` followed by the remaining fields, which are
/// carried through as they stand (`rest` is empty or starts with `:`).
#[derive(Debug)]
pub struct ShadowEntry {
    pub name: Vec<u8>,
    pub hash: Vec<u8>,
    pub rest: Vec<u8>,
}

/// What an entry holds, as byte sequences.
pub ghost struct EntryView {
    pub name: Seq<u8>,
    pub hash: Seq<u8>,
    pub rest: Seq<u8>,
}

impl View for ShadowEntry {
    type V = EntryView;

    open spec fn view(&self) -> EntryView {
        EntryView { name: self.name@, hash: self.hash@, rest: self.rest@ }
    }
}

/// An entry that reads back from its own line: a non-empty name and a hash
/// without separators, and remaining fields that start with a separator.
pub open spec fn entry_wf(e: EntryView) -> bool {
    &&& e.name.len() > 0
    &&& free_of(e.name, COLON)
    &&& free_of(e.name, NEWLINE)
    &&& free_of(e.hash, COLON)
    &&& free_of(e.hash, NEWLINE)
    &&& e.rest.len() == 0 || e.rest[0] == COLON
    &&& free_of(e.rest, NEWLINE)
}

/// The line of an entry, without its terminator.
pub open spec fn format_spec(e: EntryView) -> Seq<u8> {
    e.name + seq![COLON] + e.hash + e.rest
}

/// The entry that a line holds: the name runs to the first separator, the hash to
/// the next one or the end. A line without a separator, or with an empty name,
/// holds no entry.
pub open spec fn parse_spec(line: Seq<u8>) -> Option<EntryView> {
    let i = first(line, COLON);
    if i <= 0 || i >= line.len() {
        None
    } else {
        let after = line.skip(i + 1);
        let j = first(after, COLON);
        Some(EntryView { name: line.take(i), hash: after.take(j), rest: after.skip(j) })
    }
}

/// Reads the entry of one line (without its terminator).
pub fn parse_entry(line: &Vec<u8>) -> (r: Option<ShadowEntry>)
    ensures
        r matches Some(e) ==> parse_spec(line@) == Some(e@),
        r is None ==> parse_spec(line@) is None,
{
    let i = find_from(line, 0, COLON);
    assert(line@.skip(0) =~= line@);
    if i == 0 || i == line.len() {
        return None;
    }
    let j = find_from(line, i + 1, COLON);
    let name = copy_range(line, 0, i);
    let hash = copy_range(line, i + 1, j);
    let rest = copy_range(line, j, line.len());
    proof {
        let after = line@.skip(i + 1);
        assert(after.take(j - i - 1) =~= hash@);
        assert(after.skip(j - i - 1) =~= rest@);
        assert(line@.take(i as int) =~= name@);
    }
    Some(ShadowEntry { name, hash, rest })
}

/// The hash of an entry as text: absent where the field is not well-formed
/// UTF-8.
pub open spec fn entry_hash(e: EntryView) -> Option<Seq<u8>> {
    if utf8_spec(e.hash) {
        Some(e.hash)
    } else {
        None
    }
}

impl ShadowEntry {
    /// The entry's hash, or `None` where it does not decode as UTF-8 text.
    pub fn decoded_hash(&self) -> (r: Option<Vec<u8>>)
        ensures
            r matches Some(h) ==> entry_hash(self@) == Some(h@),
            r is None ==> entry_hash(self@) is None,
    {
        if is_utf8(&self.hash) {
            Some(copy_range(&self.hash, 0, self.hash.len()))
        } else {
            None
        }
    }

    /// The entry's line, without its terminator.
    pub fn to_line(&self) -> (r: Vec<u8>)
        ensures
            r@ == format_spec(self@),
    {
        let mut r: Vec<u8> = Vec::new();
        append_bytes(&mut r, &self.name);
        r.push(COLON);
        append_bytes(&mut r, &self.hash);
        append_bytes(&mut r, &self.rest);
        assert(r@ =~= format_spec(self@));
        r
    }
}

/// Formatting a well-formed entry and reading the line back gives the entry.
pub proof fn lemma_parse_format(e: EntryView)
    requires
        entry_wf(e),
    ensures
        parse_spec(format_spec(e)) == Some(e),
{
    let line = format_spec(e);
    let n = e.name.len() as int;
    assert(line[n] == COLON);
    assert forall|k: int| 0 <= k < n implies line[k] != COLON by {
        assert(line[k] == e.name[k]);
    }
    lemma_first_unique(line, COLON, n);
    let after = line.skip(n + 1);
    assert(after =~= e.hash + e.rest);
    let h = e.hash.len() as int;
    assert forall|k: int| 0 <= k < h implies after[k] != COLON by {
        assert(after[k] == e.hash[k]);
    }
    if e.rest.len() > 0 {
        assert(after[h] == e.rest[0]);
    }
    assert(is_first(after, COLON, h));
    lemma_first_unique(after, COLON, h);
    assert(line.take(n) =~= e.name);
    assert(after.take(h) =~= e.hash);
    assert(after.skip(h) =~= e.rest);
}

/// A line that holds an entry is that entry's line; on a line without a
/// terminator the entry is well formed.
pub proof fn lemma_format_parse(line: Seq<u8>)
    requires
        parse_spec(line) is Some,
    ensures
        format_spec(parse_spec(line)->Some_0) == line,
        free_of(line, NEWLINE) ==> entry_wf(parse_spec(line)->Some_0),
{
    let e = parse_spec(line)->Some_0;
    let i = first(line, COLON);
    lemma_first_exists(line, COLON);
    let after = line.skip(i + 1);
    let j = first(after, COLON);
    lemma_first_exists(after, COLON);
    assert(line =~= e.name + seq![COLON] + after);
    assert(after =~= e.hash + e.rest);
    assert(format_spec(e) =~= line);
    if free_of(line, NEWLINE) {
        assert forall|k: int| 0 <= k < e.name.len() implies e.name[k] != NEWLINE && e.name[k] != COLON by {
            assert(e.name[k] == line[k]);
        }
        assert forall|k: int| 0 <= k < e.hash.len() implies e.hash[k] != NEWLINE && e.hash[k] != COLON by {
            assert(e.hash[k] == line[i + 1 + k]);
        }
        assert forall|k: int| 0 <= k < e.rest.len() implies e.rest[k] != NEWLINE by {
            assert(e.rest[k] == line[i + 1 + j + k]);
        }
    }
}

} // verus!
