use vstd::prelude::*;

use crate::bytes::{append_bytes, copy_range, find_from, first, free_of};
use crate::entry::{EntryView, COLON, NEWLINE};
use crate::config::Config;
use crate::shadow::{hash_of, lookup_hash, scan_spec};
use crate::utf8::{is_utf8, utf8_spec};

verus! {

/// The byte that a C string cannot hold.
pub const NUL: u8 = 0x00;

/// The first line of a text: everything before the first line terminator.
pub open spec fn first_line(s: Seq<u8>) -> Seq<u8> {
    s.take(first(s, NEWLINE))
}

/// The hash that a mirror file holds: its first line, where that line decodes
/// as UTF-8 text and can stand as a hash field (no separator, no NUL byte).
/// Otherwise the mirror is unusable.
pub open spec fn mirror_hash_spec(content: Seq<u8>) -> Option<Seq<u8>> {
    let l = first_line(content);
    if utf8_spec(l) && free_of(l, COLON) && free_of(l, NUL) {
        Some(l)
    } else {
        None
    }
}

/// What the mirror file of a user holds: the user's hash, or nothing where the
/// hash is unavailable, and a line terminator.
pub open spec fn mirror_contents_spec(h: Option<Seq<u8>>) -> Seq<u8> {
    match h {
        Some(h) => h + seq![NEWLINE],
        None => seq![NEWLINE],
    }
}

/// Whether `s` holds the byte `b`.
pub fn has_byte(s: &Vec<u8>, b: u8) -> (r: bool)
    ensures
        r == !free_of(s@, b),
{
    let k = find_from(s, 0, b);
    assert(s@.skip(0) =~= s@);
    k < s.len()
}

/// Reads the hash out of a mirror file's content.
pub fn mirror_hash(content: &Vec<u8>) -> (r: Option<Vec<u8>>)
    ensures
        r matches Some(h) ==> mirror_hash_spec(content@) == Some(h@),
        r is None ==> mirror_hash_spec(content@) is None,
{
    let k = find_from(content, 0, NEWLINE);
    assert(content@.skip(0) =~= content@);
    let line = copy_range(content, 0, k);
    assert(line@ =~= first_line(content@));
    if !is_utf8(&line) || has_byte(&line, COLON) || has_byte(&line, NUL) {
        None
    } else {
        Some(line)
    }
}

/// The content of the mirror file of user `name`, taken from the database text
/// `data`. The same database gives the same bytes, call after call.
pub fn export_contents(data: &Vec<u8>, name: &Vec<u8>) -> (r: Vec<u8>)
    ensures
        r@ == mirror_contents_spec(hash_of(scan_spec(data@), name@)),
{
    let mut r: Vec<u8> = Vec::new();
    match lookup_hash(data, name) {
        Some(h) => {
            append_bytes(&mut r, &h);
        },
        None => {},
    }
    r.push(NEWLINE);
    assert(r@ =~= mirror_contents_spec(hash_of(scan_spec(data@), name@)));
    r
}

/// The names among `names` whose hash `es` does not give (no entry, or a hash
/// that does not decode), in order.
pub open spec fn missing_spec(es: Seq<EntryView>, names: Seq<Seq<u8>>) -> Seq<Seq<u8>>
    decreases names.len(),
{
    if names.len() == 0 {
        Seq::empty()
    } else {
        let before = missing_spec(es, names.drop_last());
        if hash_of(es, names.last()) is None {
            before.push(names.last())
        } else {
            before
        }
    }
}

/// The configured users whose hash the database text `data` does not give:
/// no entry of that name, or a hash that does not decode. In the configured
/// order.
pub fn missing_users(data: &Vec<u8>, config: &Config) -> (r: Vec<Vec<u8>>)
    ensures
        r@.map_values(|n: Vec<u8>| n@) == missing_spec(scan_spec(data@), config.names()),
{
    let ghost es = scan_spec(data@);
    let mut r: Vec<Vec<u8>> = Vec::new();
    let mut i: usize = 0;
    assert(config.names().take(0) =~= Seq::<Seq<u8>>::empty());
    assert(r@.map_values(|n: Vec<u8>| n@) =~= Seq::<Seq<u8>>::empty());
    while i < config.len()
        invariant
            i <= config.names().len(),
            es == scan_spec(data@),
            r@.map_values(|n: Vec<u8>| n@) == missing_spec(es, config.names().take(i as int)),
        decreases config.names().len() - i,
    {
        let name = config.name(i);
        let ghost before = r@.map_values(|n: Vec<u8>| n@);
        assert(config.names().take(i + 1).drop_last() =~= config.names().take(i as int));
        if lookup_hash(data, name).is_none() {
            let c = copy_range(name, 0, name.len());
            assert(c@ =~= name@);
            r.push(c);
            assert(r@.map_values(|n: Vec<u8>| n@) =~= before.push(name@));
        }
        i = i + 1;
    }
    assert(config.names().take(i as int) =~= config.names());
    r
}

} // verus!
