use vstd::prelude::*;

use crate::bytes::{append_bytes, copy_range, first, free_of, is_first, lemma_first_exists, lemma_first_unique};
use crate::config::Config;
use crate::entry::{entry_wf, format_spec, lemma_parse_format, EntryView, ShadowEntry, COLON, NEWLINE};
use crate::mirror::{first_line, mirror_hash, mirror_hash_spec, NUL};
use crate::utf8::utf8_spec;
use crate::shadow::{lemma_scan_concat, lemma_scan_line, lemma_scan_wf, scan_spec, ShadowScan};

verus! {

/// What was read of one mirror file: its content, or `None` where it could not
/// be read.
pub open spec fn read_view(m: Option<Vec<u8>>) -> Option<Seq<u8>> {
    match m {
        Some(c) => Some(c@),
        None => None,
    }
}

pub open spec fn reads_view(ms: Seq<Option<Vec<u8>>>) -> Seq<Option<Seq<u8>>> {
    ms.map_values(|m: Option<Vec<u8>>| read_view(m))
}

/// `name` is one of the configured `users`.
pub open spec fn mapped(users: Seq<Seq<u8>>, name: Seq<u8>) -> bool {
    exists|i: int| 0 <= i < users.len() && users[i] == name
}

/// The position of `name` among `users`.
pub open spec fn user_index(users: Seq<Seq<u8>>, name: Seq<u8>) -> int {
    choose|i: int| 0 <= i < users.len() && users[i] == name
}

/// The hash that replaces the one of the entry named `name`: that of its
/// mirror, where the user is configured and the mirror was read and is usable.
/// `reads` is aligned with `users`; a read missing at the end counts as failed.
pub open spec fn mirror_for(
    users: Seq<Seq<u8>>,
    reads: Seq<Option<Seq<u8>>>,
    name: Seq<u8>,
) -> Option<Seq<u8>> {
    if mapped(users, name) {
        let i = user_index(users, name);
        if i < reads.len() {
            match reads[i] {
                Some(c) => mirror_hash_spec(c),
                None => None,
            }
        } else {
            None
        }
    } else {
        None
    }
}

/// The entry `e` with its hash replaced by `h`, where there is one.
pub open spec fn substituted(e: EntryView, h: Option<Seq<u8>>) -> EntryView {
    match h {
        Some(h) => EntryView { name: e.name, hash: h, rest: e.rest },
        None => e,
    }
}

/// The entries `es` as the rewrite leaves them, in the same order.
pub open spec fn rewritten(
    es: Seq<EntryView>,
    users: Seq<Seq<u8>>,
    reads: Seq<Option<Seq<u8>>>,
) -> Seq<EntryView> {
    es.map_values(|e: EntryView| substituted(e, mirror_for(users, reads, e.name)))
}

/// The database text of `es`: one terminated line per entry, in order.
pub open spec fn render(es: Seq<EntryView>) -> Seq<u8>
    decreases es.len(),
{
    if es.len() == 0 {
        Seq::empty()
    } else {
        render(es.drop_last()) + format_spec(es.last()) + seq![NEWLINE]
    }
}

/// The names of the configured users among `es` whose mirror could not be used,
/// in the order of `es`.
pub open spec fn failed_spec(
    es: Seq<EntryView>,
    users: Seq<Seq<u8>>,
    reads: Seq<Option<Seq<u8>>>,
) -> Seq<Seq<u8>>
    decreases es.len(),
{
    if es.len() == 0 {
        Seq::empty()
    } else {
        let e = es.last();
        let before = failed_spec(es.drop_last(), users, reads);
        if mapped(users, e.name) && mirror_for(users, reads, e.name) is None {
            before.push(e.name)
        } else {
            before
        }
    }
}

/// The new database text computed from `data`.
pub open spec fn rewrite_spec(
    data: Seq<u8>,
    users: Seq<Seq<u8>>,
    reads: Seq<Option<Seq<u8>>>,
) -> Seq<u8> {
    render(rewritten(scan_spec(data), users, reads))
}

/// The outcome of a rewrite: the new database text, and the configured users
/// whose entry kept its hash because their mirror could not be used.
#[derive(Debug)]
pub struct RewriteOutcome {
    pub data: Vec<u8>,
    pub failed: Vec<Vec<u8>>,
}

pub open spec fn names_view(v: Seq<Vec<u8>>) -> Seq<Seq<u8>> {
    v.map_values(|n: Vec<u8>| n@)
}

/// The position of `name` among the configured users.
fn position(config: &Config, name: &Vec<u8>) -> (r: Option<usize>)
    requires
        config.wf(),
    ensures
        r is Some <==> mapped(config.names(), name@),
        r matches Some(i) ==> i == user_index(config.names(), name@),
{
    let ghost users = config.names();
    let r = config.find(name);
    proof {
        if mapped(users, name@) {
            let j = user_index(users, name@);
            assert(users[j] == name@);
            assert(users.contains(name@));
            if let Some(i) = r {
                assert(users[j] == users[i as int]);
            }
        }
        if let Some(i) = r {
            assert(users[i as int] == name@);
        }
    }
    r
}

/// The hash that replaces the one of the `i`-th configured user's entry.
fn replacement(reads: &Vec<Option<Vec<u8>>>, i: usize) -> (r: Option<Vec<u8>>)
    ensures
        read_view(r) == (if i < reads@.len() {
            match reads_view(reads@)[i as int] {
                Some(c) => mirror_hash_spec(c),
                None => None,
            }
        } else {
            None
        }),
{
    if i < reads.len() {
        match &reads[i] {
            Some(c) => mirror_hash(c),
            None => None,
        }
    } else {
        None
    }
}

/// Computes the new database text: every entry of `data`, in order, with the
/// hash of each configured user replaced by the first line of that user's mirror.
/// `reads[i]` is what was read of the mirror of the `i`-th configured user.
/// Where a mirror was not read or is unusable, the entry keeps its hash and the
/// user is reported.
pub fn rewrite_database(data: &Vec<u8>, config: &Config, reads: &Vec<Option<Vec<u8>>>) -> (r:
    RewriteOutcome)
    requires
        config.wf(),
    ensures
        r.data@ == rewrite_spec(data@, config.names(), reads_view(reads@)),
        names_view(r.failed@) == failed_spec(scan_spec(data@), config.names(), reads_view(reads@)),
{
    let ghost users = config.names();
    let ghost rv = reads_view(reads@);
    let ghost all = scan_spec(data@);
    let mut out: Vec<u8> = Vec::new();
    let mut failed: Vec<Vec<u8>> = Vec::new();
    let ghost mut done: Seq<EntryView> = Seq::empty();
    let mut scan = ShadowScan::open(data);
    assert(rewritten(done, users, rv) =~= Seq::<EntryView>::empty());
    assert(names_view(failed@) =~= Seq::<Seq<u8>>::empty());
    loop
        invariant
            scan.wf(),
            config.wf(),
            users == config.names(),
            rv == reads_view(reads@),
            all == scan_spec(data@),
            done + scan.remaining() == all,
            out@ == render(rewritten(done, users, rv)),
            names_view(failed@) == failed_spec(done, users, rv),
        decreases scan.remaining().len(),
    {
        match scan.next() {
            None => {
                assert(scan.remaining() =~= Seq::<EntryView>::empty());
                assert(done =~= all);
                return RewriteOutcome { data: out, failed };
            },
            Some(e) => {
                let ghost ev = e@;
                let pos = position(config, &e.name);
                let is_mapped = pos.is_some();
                let h = match pos {
                    Some(i) => replacement(reads, i),
                    None => None,
                };
                let ghost next = done.push(ev);
                proof {
                    assert(next + scan.remaining() =~= all);
                    assert(next.drop_last() =~= done);
                    assert(rewritten(next, users, rv).drop_last() =~= rewritten(done, users, rv));
                    assert(is_mapped == mapped(users, ev.name));
                    assert(read_view(h) == mirror_for(users, rv, ev.name));
                }
                let ne = match h {
                    Some(h) => ShadowEntry { name: e.name, hash: h, rest: e.rest },
                    None => {
                        if is_mapped {
                            failed.push(copy_range(&e.name, 0, e.name.len()));
                            proof {
                                assert(e.name@.subrange(0, e.name@.len() as int) =~= e.name@);
                            }
                        }
                        e
                    },
                };
                let line = ne.to_line();
                append_bytes(&mut out, &line);
                out.push(NEWLINE);
                proof {
                    done = next;
                    assert(ne@ == substituted(ev, mirror_for(users, rv, ev.name)));
                    assert(rewritten(done, users, rv).last() == ne@);
                    assert(names_view(failed@) =~= failed_spec(done, users, rv));
                }
            },
        }
    }
}

proof fn lemma_scan_render(es: Seq<EntryView>)
    requires
        forall|i: int| 0 <= i < es.len() ==> entry_wf(#[trigger] es[i]),
    ensures
        scan_spec(render(es)) == es,
    decreases es.len(),
{
    if es.len() == 0 {
        assert(scan_spec(Seq::<u8>::empty()) =~= es);
    } else {
        let init = es.drop_last();
        let e = es.last();
        assert(entry_wf(e));
        lemma_scan_render(init);
        let x = render(init);
        let y = format_spec(e) + seq![NEWLINE];
        assert(render(es) =~= x + y);
        if init.len() > 0 {
            assert(x.last() == NEWLINE);
        }
        lemma_scan_concat(x, y);
        assert forall|j: int| 0 <= j < format_spec(e).len() implies format_spec(e)[j] != NEWLINE by {
            let n = e.name.len() as int;
            let h = e.hash.len() as int;
            if j < n {
                assert(format_spec(e)[j] == e.name[j]);
            } else if j == n {
                assert(format_spec(e)[j] == COLON);
            } else if j < n + 1 + h {
                assert(format_spec(e)[j] == e.hash[j - n - 1]);
            } else {
                assert(format_spec(e)[j] == e.rest[j - n - 1 - h]);
            }
        }
        lemma_scan_line(format_spec(e));
        lemma_parse_format(e);
        assert(init + seq![e] =~= es);
    }
}

proof fn lemma_mirror_hash_clean(c: Seq<u8>)
    ensures
        mirror_hash_spec(c) matches Some(h) ==> free_of(h, COLON) && free_of(h, NEWLINE),
{
    lemma_first_exists(c, NEWLINE);
}

proof fn lemma_rewritten_wf(es: Seq<EntryView>, users: Seq<Seq<u8>>, reads: Seq<Option<Seq<u8>>>)
    requires
        forall|i: int| 0 <= i < es.len() ==> entry_wf(#[trigger] es[i]),
    ensures
        forall|i: int| 0 <= i < es.len() ==> entry_wf(#[trigger] rewritten(es, users, reads)[i]),
{
    assert forall|i: int| 0 <= i < es.len() implies entry_wf(#[trigger] rewritten(es, users, reads)[i]) by {
        if mapped(users, es[i].name) {
            let k = user_index(users, es[i].name);
            if k < reads.len() && reads[k] is Some {
                lemma_mirror_hash_clean(reads[k]->Some_0);
            }
        }
        assert(entry_wf(es[i]));
    }
}

/// The entries of the new text are the rewritten entries of the old one.
proof fn lemma_rewrite_scan(data: Seq<u8>, users: Seq<Seq<u8>>, reads: Seq<Option<Seq<u8>>>)
    ensures
        scan_spec(rewrite_spec(data, users, reads)) == rewritten(scan_spec(data), users, reads),
{
    let es = scan_spec(data);
    lemma_scan_wf(data);
    lemma_rewritten_wf(es, users, reads);
    lemma_scan_render(rewritten(es, users, reads));
}

/// The new text holds one entry for each entry of the old one, in the same
/// order, with the same name and the same remaining fields: nothing is
/// reordered, dropped or added.
pub proof fn lemma_rewrite_keeps_order(data: Seq<u8>, users: Seq<Seq<u8>>, reads: Seq<Option<Seq<u8>>>)
    ensures
        scan_spec(rewrite_spec(data, users, reads)).len() == scan_spec(data).len(),
        forall|j: int|
            0 <= j < scan_spec(data).len() ==> {
                &&& (#[trigger] scan_spec(rewrite_spec(data, users, reads))[j]).name == scan_spec(data)[j].name
                &&& scan_spec(rewrite_spec(data, users, reads))[j].rest == scan_spec(data)[j].rest
            },
{
    lemma_rewrite_scan(data, users, reads);
}

/// A configured user whose mirror holds the line `h`, a hash in UTF-8 text,
/// gets `h` as the hash of every entry of that name.
pub proof fn lemma_mapped_user_gets_mirror_hash(
    data: Seq<u8>,
    users: Seq<Seq<u8>>,
    reads: Seq<Option<Seq<u8>>>,
    i: int,
    h: Seq<u8>,
)
    requires
        users.no_duplicates(),
        0 <= i < users.len(),
        i < reads.len(),
        reads[i] == Some(h + seq![NEWLINE]),
        free_of(h, NEWLINE),
        free_of(h, COLON),
        free_of(h, NUL),
        utf8_spec(h),
    ensures
        forall|j: int|
            0 <= j < scan_spec(data).len() && scan_spec(data)[j].name == users[i] ==> (
            #[trigger] scan_spec(rewrite_spec(data, users, reads))[j]) == (EntryView {
                name: scan_spec(data)[j].name,
                hash: h,
                rest: scan_spec(data)[j].rest,
            }),
{
    lemma_rewrite_scan(data, users, reads);
    let c = h + seq![NEWLINE];
    assert(is_first(c, NEWLINE, h.len() as int)) by {
        assert forall|j: int| 0 <= j < h.len() implies c[j] != NEWLINE by {
            assert(c[j] == h[j]);
        }
    }
    lemma_first_unique(c, NEWLINE, h.len() as int);
    assert(first_line(c) =~= h);
    assert(mirror_hash_spec(c) == Some(h));
    assert(mapped(users, users[i]));
    let k = user_index(users, users[i]);
    assert(users[k] == users[i]);
    assert(k == i);
    assert(mirror_for(users, reads, users[i]) == Some(h));
}

/// An entry whose name is not configured comes out exactly as it went in.
pub proof fn lemma_unmapped_entry_unchanged(data: Seq<u8>, users: Seq<Seq<u8>>, reads: Seq<Option<Seq<u8>>>)
    ensures
        forall|j: int|
            0 <= j < scan_spec(data).len() && !mapped(users, scan_spec(data)[j].name) ==> (
            #[trigger] scan_spec(rewrite_spec(data, users, reads))[j]) == scan_spec(data)[j],
{
    lemma_rewrite_scan(data, users, reads);
}

/// Where the mirror of the `k`-th user is missing or unusable, that user's
/// entries keep their hash, and every other entry comes out as it would with
/// that mirror intact.
pub proof fn lemma_failure_isolation(
    data: Seq<u8>,
    users: Seq<Seq<u8>>,
    reads: Seq<Option<Seq<u8>>>,
    k: int,
    bad: Option<Seq<u8>>,
)
    requires
        users.no_duplicates(),
        0 <= k < users.len(),
        k < reads.len(),
        bad is None || mirror_hash_spec(bad->Some_0) is None,
    ensures
        ({
            let es = scan_spec(data);
            let good = scan_spec(rewrite_spec(data, users, reads));
            let hurt = scan_spec(rewrite_spec(data, users, reads.update(k, bad)));
            &&& hurt.len() == es.len()
            &&& forall|j: int|
                0 <= j < es.len() && es[j].name != users[k] ==> #[trigger] hurt[j] == good[j]
            &&& forall|j: int| 0 <= j < es.len() && es[j].name == users[k] ==> hurt[j] == es[j]
        }),
{
    let reads2 = reads.update(k, bad);
    let es = scan_spec(data);
    lemma_rewrite_scan(data, users, reads);
    lemma_rewrite_scan(data, users, reads2);
    assert forall|j: int| 0 <= j < es.len() && es[j].name != users[k] implies mirror_for(users, reads2, es[j].name)
        == mirror_for(users, reads, es[j].name) by {
        if mapped(users, es[j].name) {
            let i = user_index(users, es[j].name);
            assert(i != k);
        }
    }
    assert forall|j: int| 0 <= j < es.len() && es[j].name == users[k] implies mirror_for(users, reads2, es[j].name)
        is None by {
        assert(mapped(users, users[k]));
        let i = user_index(users, users[k]);
        assert(users[i] == users[k]);
        assert(i == k);
    }
}

/// Rewriting the rewritten text again, with the same mirrors, gives the same
/// text.
pub proof fn lemma_rewrite_idempotent(data: Seq<u8>, users: Seq<Seq<u8>>, reads: Seq<Option<Seq<u8>>>)
    ensures
        rewrite_spec(rewrite_spec(data, users, reads), users, reads) == rewrite_spec(data, users, reads),
{
    let es = scan_spec(data);
    let once = rewritten(es, users, reads);
    lemma_rewrite_scan(data, users, reads);
    assert(rewritten(once, users, reads) =~= once);
}

} // verus!
