//! General laws of the registry, stated and proved over the model.
//!
//! These relate registration, parsing and the `has` query across whole runs:
//! what a parse pass can and cannot change, when a key counts as supplied,
//! and what re-registering an existing key leaves behind.

use vstd::prelude::*;

use crate::model::EntryV;
use crate::model::FlagV;
use crate::model::ItemV;
use crate::model::ReaderV;
use crate::model::has_in;
use crate::model::item_disjoint;
use crate::model::item_in_range;
use crate::model::key_index;
use crate::model::lemma_disjoint_ranges;
use crate::model::lemma_key_index;
use crate::model::lemma_key_index_push;
use crate::model::lemma_key_index_same_keys;
use crate::model::reader_done;
use crate::model::reader_process;
use crate::model::reader_ready;
use crate::model::spec_has;
use crate::model::spec_parse;
use crate::model::spec_parse_from;
use crate::model::spec_register;

verus! {

/// Law: parsing never adds or removes registrations, never changes a key,
/// value container, description or arity, and never clears a supplied flag.
pub proof fn lemma_parse_preserves_registrations(
    help: Seq<char>,
    entries: Seq<EntryV>,
    cells: Seq<Seq<char>>,
    reader: Option<ReaderV>,
    tokens: Seq<Seq<char>>,
    i: int,
)
    ensures
        ({
            let res = spec_parse_from(help, entries, cells, reader, tokens, i);
            &&& res.entries.len() == entries.len()
            &&& forall|j: int|
                0 <= j < entries.len() ==> {
                    let e0 = entries[j];
                    let e = #[trigger] res.entries[j];
                    &&& e.key == e0.key
                    &&& e.value == e0.value
                    &&& e.desc == e0.desc
                    &&& e.arity == e0.arity
                    &&& (e0.supplied ==> e.supplied)
                }
        }),
    decreases tokens.len() - i,
{
    if i < 0 || i >= tokens.len() {
    } else {
        let tok = tokens[i];
        if tok == help {
        } else {
            let j = key_index(entries, tok);
            if j >= 0 {
                let ready = match reader {
                    Option::Some(r) => reader_ready(r),
                    Option::None => true,
                };
                if ready {
                    lemma_key_index(entries, tok);
                    let e = entries[j];
                    let entries2 = entries.update(j, EntryV { supplied: true, ..e });
                    let reader2 = Option::Some(
                        ReaderV { value: e.value, arity: e.arity, index: 0 },
                    );
                    lemma_parse_preserves_registrations(help, entries2, cells, reader2, tokens, i + 1);
                    let res = spec_parse_from(help, entries, cells, reader, tokens, i);
                    assert forall|t: int| 0 <= t < entries.len() implies {
                        let e0 = entries[t];
                        let er = #[trigger] res.entries[t];
                        &&& er.key == e0.key
                        &&& er.value == e0.value
                        &&& er.desc == e0.desc
                        &&& er.arity == e0.arity
                        &&& (e0.supplied ==> er.supplied)
                    } by {
                        if t != j {
                            assert(entries2[t] == entries[t]);
                        }
                    }
                }
            } else {
                match reader {
                    Option::Some(r) => {
                        let (r2, cells2) = reader_process(r, cells, tok);
                        let reader2 = if reader_done(r2) {
                            Option::<ReaderV>::None
                        } else {
                            Option::<ReaderV>::Some(r2)
                        };
                        lemma_parse_preserves_registrations(
                            help,
                            entries,
                            cells2,
                            reader2,
                            tokens,
                            i + 1,
                        );
                    },
                    Option::None => {
                        lemma_parse_preserves_registrations(
                            help,
                            entries,
                            cells,
                            reader,
                            tokens,
                            i + 1,
                        );
                    },
                }
            }
        }
    }
}

/// Law: an entry whose key never occurs among the remaining tokens comes out
/// of the parse pass exactly as it went in.
pub proof fn lemma_parse_key_never_seen(
    help: Seq<char>,
    entries: Seq<EntryV>,
    cells: Seq<Seq<char>>,
    reader: Option<ReaderV>,
    tokens: Seq<Seq<char>>,
    i: int,
    j: int,
)
    requires
        0 <= j < entries.len(),
        forall|t: int| i <= t < tokens.len() ==> tokens[t] != entries[j].key,
    ensures
        spec_parse_from(help, entries, cells, reader, tokens, i).entries[j] == entries[j],
    decreases tokens.len() - i,
{
    if i < 0 || i >= tokens.len() {
    } else {
        let tok = tokens[i];
        if tok == help {
        } else {
            let j2 = key_index(entries, tok);
            if j2 >= 0 {
                let ready = match reader {
                    Option::Some(r) => reader_ready(r),
                    Option::None => true,
                };
                if ready {
                    lemma_key_index(entries, tok);
                    assert(entries[j2].key == tok);
                    assert(j2 != j);
                    let e = entries[j2];
                    let entries2 = entries.update(j2, EntryV { supplied: true, ..e });
                    let reader2 = Option::Some(
                        ReaderV { value: e.value, arity: e.arity, index: 0 },
                    );
                    assert(entries2[j] == entries[j]);
                    lemma_parse_key_never_seen(help, entries2, cells, reader2, tokens, i + 1, j);
                }
            } else {
                match reader {
                    Option::Some(r) => {
                        let (r2, cells2) = reader_process(r, cells, tok);
                        let reader2 = if reader_done(r2) {
                            Option::<ReaderV>::None
                        } else {
                            Option::<ReaderV>::Some(r2)
                        };
                        lemma_parse_key_never_seen(help, entries, cells2, reader2, tokens, i + 1, j);
                    },
                    Option::None => {
                        lemma_parse_key_never_seen(help, entries, cells, reader, tokens, i + 1, j);
                    },
                }
            }
        }
    }
}

/// Law: a key whose token never occurs in the input keeps its `has` status
/// across a parse pass; in particular one never supplied stays unsupplied.
pub proof fn lemma_has_unchanged_for_unseen_key(f: FlagV, tokens: Seq<Seq<char>>, key: Seq<char>)
    requires
        forall|t: int| 0 <= t < tokens.len() ==> tokens[t] != key,
    ensures
        has_in(spec_parse(f, tokens).entries, key) == spec_has(f, key),
{
    let res = spec_parse(f, tokens);
    lemma_parse_preserves_registrations(f.help, f.entries, f.cells, Option::None, tokens, 0);
    lemma_key_index_same_keys(f.entries, res.entries, key);
    lemma_key_index(f.entries, key);
    let j = key_index(f.entries, key);
    if j >= 0 {
        assert(f.entries[j].key == key);
        lemma_parse_key_never_seen(f.help, f.entries, f.cells, Option::None, tokens, 0, j);
    }
}

/// Law: from any point of a pass that goes on to consume all tokens, a
/// registered key whose token still lies ahead is supplied at the end.
pub proof fn lemma_parse_matched_supplied_from(
    help: Seq<char>,
    entries: Seq<EntryV>,
    cells: Seq<Seq<char>>,
    reader: Option<ReaderV>,
    tokens: Seq<Seq<char>>,
    i: int,
    t: int,
)
    requires
        0 <= i <= t < tokens.len(),
        key_index(entries, tokens[t]) >= 0,
        spec_parse_from(help, entries, cells, reader, tokens, i).outcome is Done,
    ensures
        has_in(spec_parse_from(help, entries, cells, reader, tokens, i).entries, tokens[t]),
    decreases tokens.len() - i,
{
    let res = spec_parse_from(help, entries, cells, reader, tokens, i);
    let tok = tokens[i];
    assert(tok != help);
    let j2 = key_index(entries, tok);
    if j2 >= 0 {
        let ready = match reader {
            Option::Some(r) => reader_ready(r),
            Option::None => true,
        };
        assert(ready);
        lemma_key_index(entries, tok);
        let e = entries[j2];
        let entries2 = entries.update(j2, EntryV { supplied: true, ..e });
        let reader2 = Option::Some(ReaderV { value: e.value, arity: e.arity, index: 0 });
        assert forall|a: int| 0 <= a < entries.len() implies (#[trigger] entries2[a]).key
            == entries[a].key by {
            if a != j2 {
                assert(entries2[a] == entries[a]);
            }
        }
        if i == t {
            lemma_parse_preserves_registrations(help, entries2, cells, reader2, tokens, i + 1);
            lemma_key_index_same_keys(entries, entries2, tok);
            lemma_key_index_same_keys(entries2, res.entries, tok);
            assert(entries2[j2].supplied);
            assert(res.entries[j2].supplied);
        } else {
            lemma_key_index_same_keys(entries, entries2, tokens[t]);
            lemma_parse_matched_supplied_from(help, entries2, cells, reader2, tokens, i + 1, t);
        }
    } else {
        match reader {
            Option::Some(r) => {
                let (r2, cells2) = reader_process(r, cells, tok);
                let reader2 = if reader_done(r2) {
                    Option::<ReaderV>::None
                } else {
                    Option::<ReaderV>::Some(r2)
                };
                if i == t {
                    assert(false);
                } else {
                    lemma_parse_matched_supplied_from(help, entries, cells2, reader2, tokens, i + 1, t);
                }
            },
            Option::None => {
                if i == t {
                    assert(false);
                } else {
                    lemma_parse_matched_supplied_from(help, entries, cells, reader, tokens, i + 1, t);
                }
            },
        }
    }
}

/// Law: in a registry with no entries — as a fresh one — no key is supplied.
pub proof fn lemma_has_none_when_empty(key: Seq<char>)
    ensures
        !has_in(Seq::<EntryV>::empty(), key),
{
}

/// Law: a supplied flag is set only by a match: a key that comes out of a
/// parse pass supplied, having gone in unsupplied, has its token in the
/// input.
pub proof fn lemma_supplied_needs_token(
    help: Seq<char>,
    entries: Seq<EntryV>,
    cells: Seq<Seq<char>>,
    reader: Option<ReaderV>,
    tokens: Seq<Seq<char>>,
    j: int,
)
    requires
        0 <= j < entries.len(),
        !entries[j].supplied,
        spec_parse_from(help, entries, cells, reader, tokens, 0).entries[j].supplied,
    ensures
        exists|t: int| 0 <= t < tokens.len() && tokens[t] == entries[j].key,
{
    if !(exists|t: int| 0 <= t < tokens.len() && tokens[t] == entries[j].key) {
        assert forall|t: int| 0 <= t < tokens.len() implies tokens[t] != entries[j].key by {}
        lemma_parse_key_never_seen(help, entries, cells, reader, tokens, 0, j);
    }
}

/// Law: when a parse pass completes normally, every registered key whose
/// token occurs in the input is supplied afterwards: `has` answers true.
pub proof fn lemma_has_true_for_matched_key(f: FlagV, tokens: Seq<Seq<char>>, t: int)
    requires
        0 <= t < tokens.len(),
        key_index(f.entries, tokens[t]) >= 0,
        spec_parse(f, tokens).outcome is Done,
    ensures
        has_in(spec_parse(f, tokens).entries, tokens[t]),
{
    lemma_parse_matched_supplied_from(f.help, f.entries, f.cells, Option::None, tokens, 0, t);
}

/// Law: registration makes the key's entry exactly the new registration,
/// not yet supplied, and leaves every other key's `has` status unchanged.
/// Before any parse, `has` is therefore false for every registered key.
pub proof fn lemma_register_lookup(
    f: FlagV,
    key: Seq<char>,
    vals: Seq<Seq<char>>,
    item: ItemV,
    desc: Seq<char>,
    arity: int,
)
    ensures
        ({
            let f1 = spec_register(f, key, vals, item, desc, arity);
            let j = key_index(f1.entries, key);
            &&& 0 <= j < f1.entries.len()
            &&& f1.entries[j] == (EntryV { key, value: item, desc, supplied: false, arity })
            &&& !spec_has(f1, key)
            &&& forall|k2: Seq<char>| k2 != key ==> spec_has(f1, k2) == spec_has(f, k2)
        }),
{
    let f1 = spec_register(f, key, vals, item, desc, arity);
    let entry = EntryV { key, value: item, desc, supplied: false, arity };
    lemma_key_index(f.entries, key);
    let j0 = key_index(f.entries, key);
    if j0 >= 0 {
        let e2 = f.entries.update(j0, entry);
        assert forall|a: int| 0 <= a < f.entries.len() implies (#[trigger] e2[a]).key
            == f.entries[a].key by {
            if a != j0 {
                assert(e2[a] == f.entries[a]);
            }
        }
        lemma_key_index_same_keys(f.entries, e2, key);
        assert(f1.entries[j0] == entry);
        assert forall|k2: Seq<char>| k2 != key implies spec_has(f1, k2) == spec_has(f, k2) by {
            lemma_key_index_same_keys(f.entries, e2, k2);
            lemma_key_index(f.entries, k2);
            let a = key_index(f.entries, k2);
            if a >= 0 {
                assert(f.entries[a].key == k2);
                assert(a != j0);
                assert(f1.entries[a] == f.entries[a]);
            }
        }
    } else {
        lemma_key_index_push(f.entries, entry, key);
        assert(f1.entries[f.entries.len() as int] == entry);
        assert forall|k2: Seq<char>| k2 != key implies spec_has(f1, k2) == spec_has(f, k2) by {
            lemma_key_index_push(f.entries, entry, k2);
            lemma_key_index(f.entries, k2);
            let a = key_index(f.entries, k2);
            if a >= 0 {
                assert(f.entries[a].key == k2);
                assert(f1.entries[a] == f.entries[a]);
            }
        }
    }
}

/// Law: re-registering a key leaves only the second registration observable
/// under that key.  The first registration's cells remain in the arena, so
/// an earlier handle still reads them, but the canonical entry references
/// none of them.
pub proof fn lemma_reregister_shadows(
    f: FlagV,
    key: Seq<char>,
    vals1: Seq<Seq<char>>,
    item1: ItemV,
    desc1: Seq<char>,
    a1: int,
    vals2: Seq<Seq<char>>,
    item2: ItemV,
    desc2: Seq<char>,
    a2: int,
)
    requires
        item_in_range(item1, f.cells.len() as int, (f.cells.len() + vals1.len()) as int),
        item_in_range(
            item2,
            (f.cells.len() + vals1.len()) as int,
            (f.cells.len() + vals1.len() + vals2.len()) as int,
        ),
    ensures
        ({
            let f1 = spec_register(f, key, vals1, item1, desc1, a1);
            let f2 = spec_register(f1, key, vals2, item2, desc2, a2);
            let j = key_index(f2.entries, key);
            &&& 0 <= j < f2.entries.len()
            &&& f2.entries[j] == (EntryV {
                key,
                value: item2,
                desc: desc2,
                supplied: false,
                arity: a2,
            })
            &&& f2.cells.subrange(f.cells.len() as int, (f.cells.len() + vals1.len()) as int)
                == vals1
            &&& item_disjoint(f2.entries[j].value, item1)
        }),
{
    let f1 = spec_register(f, key, vals1, item1, desc1, a1);
    let f2 = spec_register(f1, key, vals2, item2, desc2, a2);
    lemma_register_lookup(f1, key, vals2, item2, desc2, a2);
    lemma_disjoint_ranges(
        item2,
        item1,
        (f.cells.len() + vals1.len()) as int,
        (f.cells.len() + vals1.len() + vals2.len()) as int,
        f.cells.len() as int,
        (f.cells.len() + vals1.len()) as int,
    );
    assert(f2.cells.subrange(f.cells.len() as int, (f.cells.len() + vals1.len()) as int)
        =~= vals1);
}

} // verus!
