use vstd::prelude::*;

use crate::bytes::{copy_range, find_from, first, is_first, lemma_first_exists, same_bytes};
use crate::bytes::{free_of, lemma_first_unique};
use crate::entry::{entry_hash, entry_wf, lemma_format_parse, parse_entry, parse_spec, EntryView, ShadowEntry, NEWLINE};

verus! {

/// The path of the system credential database.
pub fn shadow_path() -> (r: &'static str)
    ensures
        r@ == "/etc/shadow"@,
{
    proof {
        reveal_strlit("/etc/shadow");
    }
    "/etc/shadow"
}

/// The entries of a database text, in order: one per line that holds one.
/// Lines that hold no entry are passed over.
pub open spec fn scan_spec(d: Seq<u8>) -> Seq<EntryView>
    decreases d.len(),
{
    if d.len() == 0 {
        Seq::empty()
    } else {
        let k = first(d, NEWLINE);
        let rest = if 0 <= k < d.len() { d.skip(k + 1) } else { Seq::empty() };
        let head = match parse_spec(d.take(k)) {
            Some(e) => seq![e],
            None => Seq::empty(),
        };
        head + scan_spec(rest)
    }
}

/// The first entry named `name` among `es`.
pub open spec fn lookup_spec(es: Seq<EntryView>, name: Seq<u8>) -> Option<EntryView>
    decreases es.len(),
{
    if es.len() == 0 {
        None
    } else if es[0].name == name {
        Some(es[0])
    } else {
        lookup_spec(es.drop_first(), name)
    }
}

/// A sequential scan of a database text. It goes forward only: to start over,
/// open a new one.
pub struct ShadowScan<'a> {
    data: &'a Vec<u8>,
    pos: usize,
}

impl<'a> ShadowScan<'a> {
    pub closed spec fn wf(&self) -> bool {
        self.pos <= self.data.len()
    }

    /// The entries that the scan has still to hand out.
    pub closed spec fn remaining(&self) -> Seq<EntryView> {
        scan_spec(self.data@.skip(self.pos as int))
    }

    /// Starts a scan at the first line of `data`.
    pub fn open(data: &'a Vec<u8>) -> (r: ShadowScan<'a>)
        ensures
            r.wf(),
            r.remaining() == scan_spec(data@),
    {
        let r = ShadowScan { data, pos: 0 };
        assert(data@.skip(0) =~= data@);
        r
    }

    /// The next entry, or `None` at the end of the text.
    pub fn next(&mut self) -> (r: Option<ShadowEntry>)
        requires
            old(self).wf(),
        ensures
            final(self).wf(),
            r matches Some(e) ==> old(self).remaining() == seq![e@] + final(self).remaining(),
            r is None ==> old(self).remaining().len() == 0 && final(self).remaining().len() == 0,
    {
        let ghost start = self.remaining();
        assert(start == old(self).remaining());
        while self.pos < self.data.len()
            invariant
                self.wf(),
                self.remaining() == start,
                start == old(self).remaining(),
            decreases self.data.len() - self.pos,
        {
            let pos = self.pos;
            let k = find_from(self.data, pos, NEWLINE);
            let line = copy_range(self.data, pos, k);
            if k < self.data.len() {
                self.pos = k + 1;
            } else {
                self.pos = k;
            }
            proof {
                let d = self.data@.skip(pos as int);
                assert(d.take(k - pos) =~= line@);
                if k < self.data.len() {
                    assert(d.skip(k - pos + 1) =~= self.data@.skip(self.pos as int));
                } else {
                    assert(self.data@.skip(self.pos as int) =~= Seq::<u8>::empty());
                }
                assert(d.len() > 0);
                assert(first(d, NEWLINE) == k - pos);
                assert(start == scan_spec(d));
                assert(start == (match parse_spec(line@) {
                    Some(e) => seq![e],
                    None => Seq::empty(),
                }) + self.remaining());
            }
            match parse_entry(&line) {
                Some(e) => {
                    assert(start == seq![e@] + self.remaining());
                    return Some(e);
                },
                None => {
                    assert(start =~= self.remaining());
                },
            }
        }
        assert(self.data@.skip(self.pos as int) =~= Seq::<u8>::empty());
        None
    }
}

/// The hash of the user `name` as text: absent where `es` has no entry of that
/// name or where its hash does not decode.
pub open spec fn hash_of(es: Seq<EntryView>, name: Seq<u8>) -> Option<Seq<u8>> {
    match lookup_spec(es, name) {
        Some(e) => entry_hash(e),
        None => None,
    }
}

/// The first entry of `data` named `name`, with its fields as they stand in
/// the text. Its hash is read as text through `ShadowEntry::decoded_hash`, or
/// at once through `lookup_hash`: a hash that does not decode counts as absent.
pub fn lookup(data: &Vec<u8>, name: &Vec<u8>) -> (r: Option<ShadowEntry>)
    ensures
        r matches Some(e) ==> lookup_spec(scan_spec(data@), name@) == Some(e@),
        r is None ==> lookup_spec(scan_spec(data@), name@) is None,
{
    let mut scan = ShadowScan::open(data);
    loop
        invariant
            scan.wf(),
            lookup_spec(scan_spec(data@), name@) == lookup_spec(scan.remaining(), name@),
        decreases scan.remaining().len(),
    {
        let ghost before = scan.remaining();
        match scan.next() {
            None => {
                return None;
            },
            Some(e) => {
                assert(before.drop_first() =~= scan.remaining());
                if same_bytes(&e.name, name) {
                    return Some(e);
                }
            },
        }
    }
}

/// Scanning a text made of whole lines and then some more text gives the
/// entries of the lines and then those of the rest.
pub proof fn lemma_scan_concat(x: Seq<u8>, y: Seq<u8>)
    requires
        x.len() == 0 || x.last() == NEWLINE,
    ensures
        scan_spec(x + y) == scan_spec(x) + scan_spec(y),
    decreases x.len(),
{
    if x.len() == 0 {
        assert(x + y =~= y);
        assert(scan_spec(x) + scan_spec(y) =~= scan_spec(y));
    } else {
        let z = x + y;
        lemma_first_exists(x, NEWLINE);
        let k = first(x, NEWLINE);
        assert(k < x.len()) by {
            if k == x.len() {
                assert(x[x.len() - 1] != NEWLINE);
            }
        }
        assert(is_first(z, NEWLINE, k)) by {
            assert(z[k] == x[k]);
            assert forall|j: int| 0 <= j < k implies z[j] != NEWLINE by {
                assert(z[j] == x[j]);
            }
        }
        lemma_first_unique(z, NEWLINE, k);
        assert(z.take(k) =~= x.take(k));
        let x1 = x.skip(k + 1);
        assert(z.skip(k + 1) =~= x1 + y);
        if x1.len() > 0 {
            assert(x1.last() == x.last());
        }
        lemma_scan_concat(x1, y);
        let head = match parse_spec(x.take(k)) {
            Some(e) => seq![e],
            None => Seq::<EntryView>::empty(),
        };
        assert(scan_spec(x) == head + scan_spec(x1));
        assert(scan_spec(z) == head + scan_spec(x1 + y));
        assert(scan_spec(z) =~= scan_spec(x) + scan_spec(y));
    }
}

/// Scanning one terminated line gives the entry that the line holds, if any.
pub proof fn lemma_scan_line(l: Seq<u8>)
    requires
        free_of(l, NEWLINE),
    ensures
        scan_spec(l + seq![NEWLINE]) == match parse_spec(l) {
            Some(e) => seq![e],
            None => Seq::<EntryView>::empty(),
        },
{
    let z = l + seq![NEWLINE];
    assert(is_first(z, NEWLINE, l.len() as int)) by {
        assert forall|j: int| 0 <= j < l.len() implies z[j] != NEWLINE by {
            assert(z[j] == l[j]);
        }
    }
    lemma_first_unique(z, NEWLINE, l.len() as int);
    assert(z.take(l.len() as int) =~= l);
    assert(z.skip(l.len() as int + 1) =~= Seq::<u8>::empty());
    let head = match parse_spec(l) {
        Some(e) => seq![e],
        None => Seq::<EntryView>::empty(),
    };
    assert(scan_spec(Seq::<u8>::empty()) =~= Seq::<EntryView>::empty());
    assert(scan_spec(z) == head + scan_spec(z.skip(l.len() as int + 1)));
    assert(scan_spec(z) =~= head);
}

/// Every entry that a scan hands out is well formed.
pub proof fn lemma_scan_wf(d: Seq<u8>)
    ensures
        forall|i: int| 0 <= i < scan_spec(d).len() ==> entry_wf(#[trigger] scan_spec(d)[i]),
    decreases d.len(),
{
    if d.len() > 0 {
        let k = first(d, NEWLINE);
        lemma_first_exists(d, NEWLINE);
        let rest = if 0 <= k < d.len() { d.skip(k + 1) } else { Seq::empty() };
        lemma_scan_wf(rest);
        let l = d.take(k);
        if parse_spec(l) is Some {
            assert forall|j: int| 0 <= j < l.len() implies l[j] != NEWLINE by {
                assert(l[j] == d[j]);
            }
            lemma_format_parse(l);
        }
        let head = match parse_spec(l) {
            Some(e) => seq![e],
            None => Seq::<EntryView>::empty(),
        };
        assert(scan_spec(d) == head + scan_spec(rest));
        assert forall|i: int| 0 <= i < scan_spec(d).len() implies entry_wf(#[trigger] scan_spec(d)[i]) by {
            if i >= head.len() {
                assert(scan_spec(d)[i] == scan_spec(rest)[i - head.len()]);
            }
        }
    }
}

/// The hash of user `name` in `data`: `None` where there is no entry of that
/// name, or where its hash is not well-formed UTF-8.
pub fn lookup_hash(data: &Vec<u8>, name: &Vec<u8>) -> (r: Option<Vec<u8>>)
    ensures
        r matches Some(h) ==> hash_of(scan_spec(data@), name@) == Some(h@),
        r is None ==> hash_of(scan_spec(data@), name@) is None,
{
    match lookup(data, name) {
        Some(e) => e.decoded_hash(),
        None => None,
    }
}


} // verus!
