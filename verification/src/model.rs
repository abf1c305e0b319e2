//! The mathematical model of the registry and of the parse pass.
//!
//! The executable types in [`crate::registry`] are viewed as the ghost types
//! below: an option value is the set of arena indices it occupies, the
//! registry is a sequence of entries plus the arena of cell contents, and the
//! parse pass is a fold of a step function over the token sequence.

use vstd::prelude::*;

verus! {

/// Which cells of the registry's arena an option value occupies.
#[verifier::ext_equal]
pub enum ItemV {
    /// A scalar: exactly one cell.
    Single(int),
    /// A sequence of cells, in positional order.
    Multi(Seq<int>),
}

/// One registered option.
#[verifier::ext_equal]
pub struct EntryV {
    /// The key token that selects this option.
    pub key: Seq<char>,
    /// The cells holding the option's values.
    pub value: ItemV,
    /// Human-readable description.
    pub desc: Seq<char>,
    /// Whether the key was matched during parsing.
    pub supplied: bool,
    /// Number of value tokens the option consumes; negative means open-ended.
    pub arity: int,
}

/// The registry: entries, the cell arena, and configuration.
#[verifier::ext_equal]
pub struct FlagV {
    /// The sentinel token that triggers help display.
    pub help: Seq<char>,
    /// The registered options, keys unique.
    pub entries: Seq<EntryV>,
    /// The contents of every cell ever allocated.
    pub cells: Seq<Seq<char>>,
    /// Whether the diagnostic channel is active.
    pub warning: bool,
}

/// The transient per-key consumption state machine.
#[verifier::ext_equal]
pub struct ReaderV {
    /// A fresh container over the matched option's cells.
    pub value: ItemV,
    /// The matched option's arity.
    pub arity: int,
    /// How many value tokens have been consumed so far.
    pub index: int,
}

/// Every element of `s` lies in `[lo, hi)`.
pub open spec fn seq_in_range(s: Seq<int>, lo: int, hi: int) -> bool {
    forall|k: int| 0 <= k < s.len() ==> lo <= #[trigger] s[k] < hi
}

/// Every arena index of `v` lies in `[lo, hi)`.
pub open spec fn item_in_range(v: ItemV, lo: int, hi: int) -> bool {
    match v {
        ItemV::Single(i) => lo <= i < hi,
        ItemV::Multi(s) => seq_in_range(s, lo, hi),
    }
}

/// Every arena index of `v` is a valid index into an arena of `n_cells` cells.
pub open spec fn item_wf(v: ItemV, n_cells: int) -> bool {
    item_in_range(v, 0, n_cells)
}

/// Well-formedness of a sequence value, reduced to its payload.
pub proof fn lemma_item_wf_multi(s: Seq<int>, n: int)
    ensures
        item_wf(ItemV::Multi(s), n) == seq_in_range(s, 0, n),
{
    let v = ItemV::Multi(s);
    match v {
        ItemV::Single(_) => {
            assert(false);
        },
        ItemV::Multi(s2) => {
            assert(s2 == s);
        },
    }
}

/// The index bound of a well-formed sequence value, spelled out for its
/// payload.
pub proof fn lemma_multi_indices_bound(s: Seq<int>, n: int)
    requires
        item_wf(ItemV::Multi(s), n),
    ensures
        forall|t: int| 0 <= t < s.len() ==> 0 <= #[trigger] s[t] < n,
{
}

/// No two entries share a key.
pub open spec fn keys_unique(entries: Seq<EntryV>) -> bool {
    forall|i: int, j: int|
        0 <= i < j < entries.len() ==> (#[trigger] entries[i]).key != (#[trigger] entries[j]).key
}

/// Well-formedness of the whole registry: keys unique, all cell indices valid.
pub open spec fn flag_wf(f: FlagV) -> bool {
    &&& keys_unique(f.entries)
    &&& forall|i: int|
        0 <= i < f.entries.len() ==> item_wf((#[trigger] f.entries[i]).value, f.cells.len() as int)
}

/// Well-formedness of an active reader against an arena of `n_cells` cells.
pub open spec fn reader_wf(r: ReaderV, n_cells: int) -> bool {
    &&& item_wf(r.value, n_cells)
    &&& 0 <= r.index
}

/// The position of `key` among `entries`, or `-1` if it is not registered.
pub open spec fn key_index(entries: Seq<EntryV>, key: Seq<char>) -> int
    decreases entries.len(),
{
    if entries.len() == 0 {
        -1
    } else if entries[0].key == key {
        0
    } else {
        let r = key_index(entries.drop_first(), key);
        if r < 0 {
            -1
        } else {
            r + 1
        }
    }
}

/// `key_index` finds the first entry holding `key`, and `-1` exactly when no
/// entry holds it.
pub proof fn lemma_key_index(entries: Seq<EntryV>, key: Seq<char>)
    ensures
        key_index(entries, key) == -1 ==> forall|i: int|
            0 <= i < entries.len() ==> (#[trigger] entries[i]).key != key,
        key_index(entries, key) != -1 ==> {
            let r = key_index(entries, key);
            &&& 0 <= r < entries.len()
            &&& entries[r].key == key
            &&& forall|i: int| 0 <= i < r ==> (#[trigger] entries[i]).key != key
        },
    decreases entries.len(),
{
    if entries.len() > 0 && entries[0].key != key {
        lemma_key_index(entries.drop_first(), key);
        assert forall|i: int| 1 <= i < entries.len() implies entries.drop_first()[i - 1]
            == entries[i] by {}
    }
}

/// The shape of a sequence value of `len` cells starting at arena index
/// `start`.
pub open spec fn multi_shape(start: int, len: int) -> ItemV {
    ItemV::Multi(Seq::new(len as nat, |k: int| start + k))
}

/// Whether, among `entries`, `key` is registered and was matched during
/// parsing.
pub open spec fn has_in(entries: Seq<EntryV>, key: Seq<char>) -> bool {
    let j = key_index(entries, key);
    j >= 0 && entries[j].supplied
}

/// Whether `key` is registered and was matched during parsing.
pub open spec fn spec_has(f: FlagV, key: Seq<char>) -> bool {
    has_in(f.entries, key)
}

/// `key_index` depends only on the keys of the entries.
pub proof fn lemma_key_index_same_keys(e1: Seq<EntryV>, e2: Seq<EntryV>, key: Seq<char>)
    requires
        e1.len() == e2.len(),
        forall|j: int| 0 <= j < e1.len() ==> (#[trigger] e1[j]).key == (#[trigger] e2[j]).key,
    ensures
        key_index(e1, key) == key_index(e2, key),
    decreases e1.len(),
{
    if e1.len() > 0 {
        assert(e1[0].key == e2[0].key);
        if e1[0].key != key {
            assert forall|j: int| 0 <= j < e1.drop_first().len() implies (#[trigger] e1.drop_first()[j]).key
                == (#[trigger] e2.drop_first()[j]).key by {
                assert(e1.drop_first()[j] == e1[j + 1]);
                assert(e2.drop_first()[j] == e2[j + 1]);
            }
            lemma_key_index_same_keys(e1.drop_first(), e2.drop_first(), key);
        }
    }
}

/// How `key_index` behaves on an appended entry: an existing key keeps its
/// position, a fresh key is found at the end.
pub proof fn lemma_key_index_push(entries: Seq<EntryV>, e: EntryV, key: Seq<char>)
    ensures
        key_index(entries.push(e), key) == if key_index(entries, key) >= 0 {
            key_index(entries, key)
        } else if e.key == key {
            entries.len() as int
        } else {
            -1
        },
    decreases entries.len(),
{
    let p = entries.push(e);
    if entries.len() == 0 {
        assert(p[0] == e);
        if e.key != key {
            assert(p.drop_first() =~= Seq::<EntryV>::empty());
            assert(key_index(p.drop_first(), key) == -1);
            assert(key_index(p, key) == -1);
        } else {
            assert(key_index(p, key) == 0);
        }
    } else {
        assert(p[0] == entries[0]);
        if entries[0].key == key {
            assert(key_index(p, key) == 0);
            assert(key_index(entries, key) == 0);
        } else {
            assert(p.drop_first() =~= entries.drop_first().push(e));
            lemma_key_index_push(entries.drop_first(), e, key);
            let r0 = key_index(entries.drop_first(), key);
            let r1 = key_index(p.drop_first(), key);
            if r0 >= 0 {
                assert(r1 == r0);
                assert(key_index(entries, key) == r0 + 1);
                assert(key_index(p, key) == r0 + 1);
            } else if e.key == key {
                assert(r1 == entries.drop_first().len());
                assert(key_index(entries, key) == -1);
                assert(key_index(p, key) == r1 + 1);
                assert(r1 + 1 == entries.len());
            } else {
                assert(r1 == -1);
                assert(key_index(p, key) == -1);
                assert(key_index(entries, key) == -1);
            }
        }
    }
}

/// The arena indices an option value occupies, as a sequence.
pub open spec fn item_indices(v: ItemV) -> Seq<int> {
    match v {
        ItemV::Single(i) => seq![i],
        ItemV::Multi(s) => s,
    }
}

/// Whether two option values share no arena cell.
pub open spec fn item_disjoint(a: ItemV, b: ItemV) -> bool {
    forall|x: int, y: int|
        0 <= x < item_indices(a).len() && 0 <= y < item_indices(b).len()
            ==> #[trigger] item_indices(a)[x] != #[trigger] item_indices(b)[y]
}

/// A value within an index range has all its listed indices in that range.
pub proof fn lemma_item_in_range_indices(v: ItemV, lo: int, hi: int)
    requires
        item_in_range(v, lo, hi),
    ensures
        seq_in_range(item_indices(v), lo, hi),
{
    match v {
        ItemV::Single(i) => {
            assert(item_indices(v) =~= seq![i]);
        },
        ItemV::Multi(s) => {
            assert(item_indices(v) == s);
        },
    }
}

/// Values drawn from disjoint index ranges share no cell.
pub proof fn lemma_disjoint_ranges(a: ItemV, b: ItemV, lo1: int, hi1: int, lo2: int, hi2: int)
    requires
        item_in_range(a, lo1, hi1),
        item_in_range(b, lo2, hi2),
        hi1 <= lo2 || hi2 <= lo1,
    ensures
        item_disjoint(a, b),
{
    lemma_item_in_range_indices(a, lo1, hi1);
    lemma_item_in_range_indices(b, lo2, hi2);
    assert forall|x: int, y: int|
        0 <= x < item_indices(a).len() && 0 <= y < item_indices(b).len()
        implies #[trigger] item_indices(a)[x] != #[trigger] item_indices(b)[y] by {
        assert(lo1 <= item_indices(a)[x] < hi1);
        assert(lo2 <= item_indices(b)[y] < hi2);
    }
}

/// The registry after registering `key` with the given value, description and
/// arity: the default contents `vals` are appended to the arena, and the entry
/// replaces an earlier registration of the same key, if any.
pub open spec fn spec_register(
    f: FlagV,
    key: Seq<char>,
    vals: Seq<Seq<char>>,
    item: ItemV,
    desc: Seq<char>,
    arity: int,
) -> FlagV {
    let entry = EntryV { key, value: item, desc, supplied: false, arity };
    let j = key_index(f.entries, key);
    FlagV {
        entries: if j >= 0 {
            f.entries.update(j, entry)
        } else {
            f.entries.push(entry)
        },
        cells: f.cells + vals,
        ..f
    }
}

/// Registration preserves well-formedness, provided the new entry's cells are
/// exactly the freshly appended ones.
pub proof fn lemma_register_wf(
    f: FlagV,
    key: Seq<char>,
    vals: Seq<Seq<char>>,
    item: ItemV,
    desc: Seq<char>,
    arity: int,
)
    requires
        flag_wf(f),
        item_in_range(item, f.cells.len() as int, (f.cells.len() + vals.len()) as int),
    ensures
        flag_wf(spec_register(f, key, vals, item, desc, arity)),
{
    let f2 = spec_register(f, key, vals, item, desc, arity);
    lemma_key_index(f.entries, key);
    let j = key_index(f.entries, key);
    assert forall|a: int, b: int|
        0 <= a < b < f2.entries.len() implies (#[trigger] f2.entries[a]).key
        != (#[trigger] f2.entries[b]).key by {
        if j < 0 {
            lemma_key_index(f.entries, key);
        }
    }
    assert forall|i: int|
        0 <= i < f2.entries.len() implies item_wf(
        (#[trigger] f2.entries[i]).value,
        f2.cells.len() as int,
    ) by {
        if (j >= 0 && i != j) || (j < 0 && i < f.entries.len()) {
            assert(f2.entries[i] == f.entries[i]);
            assert(item_wf(f.entries[i].value, f.cells.len() as int));
        }
    }
}

/// One value token fed to an active reader: the updated reader and arena.
///
/// A scalar overwrites its one cell.  A sequence overwrites the cell at the
/// current position if the reader's container has one, and otherwise appends a
/// fresh cell to the arena and records it in the reader's own container only —
/// the registry's container, cloned at key-match time, does not see the
/// appended cell.
pub open spec fn reader_process(r: ReaderV, cells: Seq<Seq<char>>, tok: Seq<char>) -> (
    ReaderV,
    Seq<Seq<char>>,
) {
    match r.value {
        ItemV::Single(i) => (
            ReaderV { index: r.index + 1, ..r },
            cells.update(i, tok),
        ),
        ItemV::Multi(s) => if r.index < s.len() {
            (ReaderV { index: r.index + 1, ..r }, cells.update(s[r.index], tok))
        } else {
            (
                ReaderV {
                    value: ItemV::Multi(s.push(cells.len() as int)),
                    index: r.index + 1,
                    ..r
                },
                cells.push(tok),
            )
        },
    }
}

/// After consuming a token, a reader is finished iff its arity is fixed and
/// fully consumed.
pub open spec fn reader_done(r: ReaderV) -> bool {
    r.arity >= 0 && r.index == r.arity
}

/// Whether an active reader may be interrupted by the next key token:
/// open-ended readers always, fixed-arity readers only once fully consumed.
pub open spec fn reader_ready(r: ReaderV) -> bool {
    r.arity < 0 || r.index == r.arity
}

/// Feeding a token preserves reader and entry well-formedness: the arena never
/// shrinks, and any index the updated reader holds is valid.
pub proof fn lemma_reader_process_wf(r: ReaderV, cells: Seq<Seq<char>>, tok: Seq<char>)
    requires
        reader_wf(r, cells.len() as int),
    ensures
        ({
            let (r2, cells2) = reader_process(r, cells, tok);
            &&& reader_wf(r2, cells2.len() as int)
            &&& cells.len() <= cells2.len()
        }),
{
}

/// Marking an entry as supplied preserves well-formedness.
pub proof fn lemma_mark_supplied_wf(f: FlagV, j: int)
    requires
        flag_wf(f),
        0 <= j < f.entries.len(),
    ensures
        flag_wf(
            FlagV { entries: f.entries.update(j, EntryV { supplied: true, ..f.entries[j] }), ..f },
        ),
{
    let f2 = FlagV { entries: f.entries.update(j, EntryV { supplied: true, ..f.entries[j] }), ..f };
    assert forall|t: int| 0 <= t < f2.entries.len() implies (#[trigger] f2.entries[t]).key
        == f.entries[t].key && f2.entries[t].value == f.entries[t].value by {}
    assert(keys_unique(f2.entries));
}

/// A registry stays well-formed when the arena only grows or has cells
/// overwritten in place.
pub proof fn lemma_wf_cells_grow(f: FlagV, cells2: Seq<Seq<char>>)
    requires
        flag_wf(f),
        f.cells.len() <= cells2.len(),
    ensures
        flag_wf(FlagV { cells: cells2, ..f }),
{
}

/// How a parse pass ends.
#[verifier::ext_equal]
pub enum OutcomeV {
    /// All tokens consumed.
    Done,
    /// The help sentinel was seen; parsing stopped there.
    Help,
    /// A key was matched while the previous key's fixed-arity reader had not
    /// consumed enough values; the offending key token is recorded.
    Unmatched(Seq<char>),
}

/// The state a parse pass ends in.
#[verifier::ext_equal]
pub struct ParseResultV {
    /// The entries, with `supplied` set on every matched key.
    pub entries: Seq<EntryV>,
    /// The arena after all value tokens were written.
    pub cells: Seq<Seq<char>>,
    /// How the pass ended.
    pub outcome: OutcomeV,
}

/// The parse pass from token `i` on, with an optional active reader.
///
/// Each token is examined in order: the help sentinel stops the pass; a
/// registered key interrupts the active reader (an ordering error if the
/// reader is not ready), marks the entry supplied and starts a fresh reader
/// over a clone of the entry's value; any other token feeds the active
/// reader, or is silently discarded when none is active.
pub open spec fn spec_parse_from(
    help: Seq<char>,
    entries: Seq<EntryV>,
    cells: Seq<Seq<char>>,
    reader: Option<ReaderV>,
    tokens: Seq<Seq<char>>,
    i: int,
) -> ParseResultV
    decreases tokens.len() - i,
{
    if i < 0 || i >= tokens.len() {
        ParseResultV { entries, cells, outcome: OutcomeV::Done }
    } else {
        let tok = tokens[i];
        if tok == help {
            ParseResultV { entries, cells, outcome: OutcomeV::Help }
        } else {
            let j = key_index(entries, tok);
            if j >= 0 {
                let ready = match reader {
                    Option::Some(r) => reader_ready(r),
                    Option::None => true,
                };
                if !ready {
                    ParseResultV { entries, cells, outcome: OutcomeV::Unmatched(tok) }
                } else {
                    let e = entries[j];
                    let entries2 = entries.update(j, EntryV { supplied: true, ..e });
                    let reader2 = Option::Some(ReaderV { value: e.value, arity: e.arity, index: 0 });
                    spec_parse_from(help, entries2, cells, reader2, tokens, i + 1)
                }
            } else {
                match reader {
                    Option::Some(r) => {
                        let (r2, cells2) = reader_process(r, cells, tok);
                        let reader2 = if reader_done(r2) {
                            Option::None
                        } else {
                            Option::Some(r2)
                        };
                        spec_parse_from(help, entries, cells2, reader2, tokens, i + 1)
                    },
                    Option::None => spec_parse_from(help, entries, cells, reader, tokens, i + 1),
                }
            }
        }
    }
}

/// The whole parse pass over `tokens`, starting with no active reader.
pub open spec fn spec_parse(f: FlagV, tokens: Seq<Seq<char>>) -> ParseResultV {
    spec_parse_from(f.help, f.entries, f.cells, Option::None, tokens, 0)
}

/// The rendering of a sequence value: each cell's content followed by one
/// space.
pub open spec fn render_multi(s: Seq<int>, cells: Seq<Seq<char>>) -> Seq<char>
    decreases s.len(),
{
    if s.len() == 0 {
        Seq::empty()
    } else {
        render_multi(s.drop_last(), cells) + cells[s.last()] + seq![' ']
    }
}

/// The rendering of an option value: a scalar is its cell's content.
pub open spec fn render_item(v: ItemV, cells: Seq<Seq<char>>) -> Seq<char> {
    match v {
        ItemV::Single(i) => cells[i],
        ItemV::Multi(s) => render_multi(s, cells),
    }
}

/// One entry's help block: its key, current value and description.
pub open spec fn render_entry(e: EntryV, cells: Seq<Seq<char>>) -> Seq<char> {
    "\t"@ + e.key + "\n\t\tdefault: "@ + render_item(e.value, cells) + "\n\t\tdesc: "@ + e.desc
        + "\n"@
}

/// The help blocks of all entries, in registration order.
pub open spec fn render_entries(entries: Seq<EntryV>, cells: Seq<Seq<char>>) -> Seq<char>
    decreases entries.len(),
{
    if entries.len() == 0 {
        Seq::empty()
    } else {
        render_entries(entries.drop_last(), cells) + render_entry(entries.last(), cells)
    }
}

/// The whole help text of a registry.
pub open spec fn render_help(f: FlagV) -> Seq<char> {
    "help:\n"@ + render_entries(f.entries, f.cells)
}

} // verus!
