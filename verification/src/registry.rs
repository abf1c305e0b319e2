//! The option registry, its storage, and the parse pass.
//!
//! The registry owns an arena of string cells.  An [`ItemValue`] is a scalar
//! or a sequence of indices into that arena, so the registry's copy of a
//! value and the handle returned at registration time share cells: an
//! overwrite through one is visible through the other.  Cloning an
//! [`ItemValue`] copies the container of indices, not the cells.

use vstd::prelude::*;

use crate::model::EntryV;
use crate::model::FlagV;
use crate::model::ItemV;
use crate::model::OutcomeV;
use crate::model::ReaderV;
use crate::model::flag_wf;
use crate::model::item_in_range;
use crate::model::item_wf;
use crate::model::key_index;
use crate::model::lemma_key_index;
use crate::model::lemma_mark_supplied_wf;
use crate::model::lemma_item_wf_multi;
use crate::model::lemma_multi_indices_bound;
use crate::model::lemma_reader_process_wf;
use crate::model::lemma_register_wf;
use crate::model::lemma_wf_cells_grow;
use crate::model::multi_shape;
use crate::model::reader_done;
use crate::model::reader_process;
use crate::model::reader_ready;
use crate::model::reader_wf;
use crate::model::seq_in_range;
use crate::model::render_entries;
use crate::model::render_entry;
use crate::model::render_help;
use crate::model::render_multi;
use crate::model::spec_has;
use crate::model::spec_parse;
use crate::model::spec_parse_from;
use crate::model::spec_register;
use crate::numeric::dec_digits_of;
use crate::numeric::parse_u32;
use crate::numeric::u32_accepts;
use crate::numeric::u32_to_dec;
use crate::numeric::u32_value_of;
use vstd::string::StringExecFns;
use std::collections::VecDeque;

verus! {

/// An option's storage: one arena cell (scalar) or an ordered sequence of
/// arena cells.
pub enum ItemValue {
    /// Exactly one value.
    Single(usize),
    /// Zero or more values, in positional order.
    Multi(Vec<usize>),
}

impl View for ItemValue {
    type V = ItemV;

    open spec fn view(&self) -> ItemV {
        match self {
            ItemValue::Single(i) => ItemV::Single(*i as int),
            ItemValue::Multi(v) => ItemV::Multi(v@.map_values(|x: usize| x as int)),
        }
    }
}

impl ItemValue {
    /// A fresh container over the same cells: overwrites of the cells stay
    /// shared, while later growth of either container is private to it.
    fn duplicate(&self) -> (r: ItemValue)
        ensures
            r@ == self@,
    {
        match self {
            ItemValue::Single(i) => ItemValue::Single(*i),
            ItemValue::Multi(v) => {
                let mut w: Vec<usize> = Vec::new();
                let mut k: usize = 0;
                while k < v.len()
                    invariant
                        k <= v@.len(),
                        w@ == v@.subrange(0, k as int),
                    decreases v@.len() - k,
                {
                    w.push(v[k]);
                    k = k + 1;
                    proof {
                        assert(w@ =~= v@.subrange(0, k as int));
                    }
                }
                proof {
                    assert(w@ =~= v@);
                }
                ItemValue::Multi(w)
            },
        }
    }
}

/// The handle returned at registration time: a view over the same cells as
/// the registry's copy of the option value, read after parsing through the
/// registry's `read` methods.
pub struct Value {
    /// The option value this handle refers to.
    pub v: ItemValue,
}

impl View for Value {
    type V = ItemV;

    open spec fn view(&self) -> ItemV {
        self.v@
    }
}

impl Value {
    fn new(v: ItemValue) -> (r: Value)
        ensures
            r@ == v@,
    {
        Value { v }
    }
}

/// One registered option: its storage, description, supplied flag and arity.
struct Item {
    value: ItemValue,
    desc: String,
    is: bool,
    value_len: isize,
}

/// The option registry: the registered options, the cell arena, and the
/// parse configuration.
pub struct Flag {
    help: String,
    keys: Vec<(String, Item)>,
    cells: Vec<String>,
    is_warning: bool,
}

impl View for Flag {
    type V = FlagV;

    closed spec fn view(&self) -> FlagV {
        FlagV {
            help: self.help@,
            entries: Seq::new(
                self.keys@.len(),
                |i: int|
                    EntryV {
                        key: self.keys@[i].0@,
                        value: self.keys@[i].1.value@,
                        desc: self.keys@[i].1.desc@,
                        supplied: self.keys@[i].1.is,
                        arity: self.keys@[i].1.value_len as int,
                    },
            ),
            cells: self.cells.deep_view(),
            warning: self.is_warning,
        }
    }
}

/// A default value that can seed an option's cells at registration time.
pub trait ToItem: Sized {
    /// The cell contents this default contributes to the arena.
    spec fn default_cells(&self) -> Seq<Seq<char>>;

    /// The value shape over the contributed cells, the first at arena index
    /// `start`.
    spec fn item_shape(&self, start: int) -> ItemV;

    /// The shape occupies exactly the contributed cells.
    proof fn shape_in_range(&self, start: int)
        ensures
            item_in_range(self.item_shape(start), start, start + self.default_cells().len()),
    ;

    /// Appends the default's cells to the arena and returns the value over
    /// them.
    fn to_item(self, cells: &mut Vec<String>) -> (r: ItemValue)
        ensures
            final(cells).deep_view() == old(cells).deep_view() + self.default_cells(),
            r@ == self.item_shape(old(cells)@.len() as int),
    ;
}

impl ToItem for String {
    open spec fn default_cells(&self) -> Seq<Seq<char>> {
        seq![self@]
    }

    open spec fn item_shape(&self, start: int) -> ItemV {
        ItemV::Single(start)
    }

    proof fn shape_in_range(&self, start: int) {
    }

    fn to_item(self, cells: &mut Vec<String>) -> (r: ItemValue) {
        let idx = cells.len();
        cells.push(self);
        proof {
            assert(cells.deep_view() =~= old(cells).deep_view() + seq![self@]);
        }
        ItemValue::Single(idx)
    }
}

impl ToItem for u32 {
    open spec fn default_cells(&self) -> Seq<Seq<char>> {
        seq![dec_digits_of(*self as int)]
    }

    open spec fn item_shape(&self, start: int) -> ItemV {
        ItemV::Single(start)
    }

    proof fn shape_in_range(&self, start: int) {
    }

    fn to_item(self, cells: &mut Vec<String>) -> (r: ItemValue) {
        let idx = cells.len();
        let s = u32_to_dec(self);
        cells.push(s);
        proof {
            assert(cells.deep_view() =~= old(cells).deep_view() + seq![dec_digits_of(
                self as int,
            )]);
        }
        ItemValue::Single(idx)
    }
}

impl ToItem for VecDeque<String> {
    open spec fn default_cells(&self) -> Seq<Seq<char>> {
        self.deep_view()
    }

    open spec fn item_shape(&self, start: int) -> ItemV {
        multi_shape(start, self@.len() as int)
    }

    proof fn shape_in_range(&self, start: int) {
    }

    fn to_item(self, cells: &mut Vec<String>) -> (r: ItemValue) {
        let ghost orig: Seq<Seq<char>> = self.deep_view();
        let ghost orig_q: Seq<String> = self@;
        let mut q = self;
        let mut v: Vec<usize> = Vec::new();
        while q.len() > 0
            invariant
                q@ == orig_q.subrange(orig_q.len() - q@.len(), orig_q.len() as int),
                q@.len() <= orig_q.len(),
                orig.len() == orig_q.len(),
                forall|t: int| 0 <= t < orig.len() ==> #[trigger] orig[t] == orig_q[t]@,
                cells.deep_view() == old(cells).deep_view() + orig.subrange(
                    0,
                    orig_q.len() - q@.len(),
                ),
                v@.len() == orig_q.len() - q@.len(),
                forall|t: int|
                    0 <= t < v@.len() ==> #[trigger] v@[t] as int == old(cells)@.len() + t,
            decreases q@.len(),
        {
            let ghost k = orig_q.len() - q@.len();
            proof {
                assert(orig_q.subrange(k as int, orig_q.len() as int)[0] == orig_q[k as int]);
            }
            let s = q.pop_front().unwrap();
            proof {
                assert(s@ == orig_q[k as int]@);
                assert(orig[k as int] == orig_q[k as int]@);
            }
            v.push(cells.len());
            let ghost cpre: Seq<Seq<char>> = cells.deep_view();
            let ghost cpreq: Seq<String> = cells@;
            cells.push(s);
            proof {
                assert(q@ =~= orig_q.subrange(orig_q.len() - q@.len(), orig_q.len() as int));
                let target = old(cells).deep_view() + orig.subrange(0, k + 1);
                assert(old(cells).deep_view().len() == old(cells)@.len());
                assert(cpre.len() == cpreq.len());
                assert(cpreq.len() == old(cells)@.len() + k);
                assert(cells@.len() == cpreq.len() + 1);
                assert forall|i: int| 0 <= i < cells@.len() implies #[trigger] cells@[i]@
                    == target[i] by {
                    if i < cpreq.len() {
                        assert(cells@[i] == cpreq[i]);
                        assert(cpre[i] == cpreq[i]@);
                        let prev = old(cells).deep_view() + orig.subrange(0, k as int);
                        assert(cpre[i] == prev[i]);
                        if i < old(cells)@.len() {
                            assert(target[i] == old(cells).deep_view()[i]);
                            assert(prev[i] == old(cells).deep_view()[i]);
                        } else {
                            assert(target[i] == orig.subrange(0, k + 1)[i - old(cells)@.len()]);
                            assert(prev[i] == orig.subrange(0, k as int)[i - old(cells)@.len()]);
                        }
                    } else {
                        assert(cells@[i] == s);
                        assert(target[i] == orig[k as int]);
                    }
                }
                assert(cells.deep_view() =~= target);
            }
        }
        proof {
            assert(cells.deep_view() =~= old(cells).deep_view() + orig);
            assert(v@.map_values(|x: usize| x as int) =~= Seq::new(
                orig.len(),
                |t: int| old(cells)@.len() + t,
            ));
        }
        ItemValue::Multi(v)
    }
}

/// Whether a consumption reader keeps going or is done.
enum ReadStatus {
    Processing,
    Finish,
}

/// The transient state machine that feeds value tokens into the option value
/// matched by the most recent key token.
struct Reader {
    value: ItemValue,
    value_len: isize,
    index: usize,
}

impl View for Reader {
    type V = ReaderV;

    closed spec fn view(&self) -> ReaderV {
        ReaderV { value: self.value@, arity: self.value_len as int, index: self.index as int }
    }
}

impl Reader {
    /// Writes `arg` at the current position of the value: a scalar overwrites
    /// its cell; a sequence overwrites the cell at the position, or appends a
    /// fresh cell when the container has none there.  Reports `Finish` when a
    /// fixed arity is fully consumed.
    fn process(&mut self, arg: String, cells: &mut Vec<String>) -> (r: ReadStatus)
        requires
            reader_wf(old(self)@, old(cells)@.len() as int),
            old(self)@.index < usize::MAX,
        ensures
            ({
                let (r2, cells2) = reader_process(old(self)@, old(cells).deep_view(), arg@);
                &&& final(self)@ == r2
                &&& final(cells).deep_view() == cells2
                &&& (r is Finish <==> reader_done(r2))
            }),
    {
        let ghost cpre: Seq<Seq<char>> = cells.deep_view();
        let ghost cpreq: Seq<String> = cells@;
        match &mut self.value {
            ItemValue::Single(ci) => {
                let c: usize = *ci;
                cells[c] = arg;
                proof {
                    assert forall|i: int| 0 <= i < cells@.len() implies #[trigger] cells@[i]@
                        == cpre.update(c as int, arg@)[i] by {
                        if i != c {
                            assert(cells@[i] == cpreq[i]);
                            assert(cpre[i] == cpreq[i]@);
                        }
                    }
                    assert(cells.deep_view() =~= cpre.update(c as int, arg@));
                }
            },
            ItemValue::Multi(v) => {
                if self.index < v.len() {
                    let c: usize = v[self.index];
                    cells[c] = arg;
                    proof {
                        let s = v@.map_values(|x: usize| x as int);
                        assert(s[old(self)@.index] == c as int);
                        assert forall|i: int| 0 <= i < cells@.len() implies #[trigger] cells@[i]@
                            == cpre.update(c as int, arg@)[i] by {
                            if i != c {
                                assert(cells@[i] == cpreq[i]);
                                assert(cpre[i] == cpreq[i]@);
                            }
                        }
                        assert(cells.deep_view() =~= cpre.update(c as int, arg@));
                    }
                } else {
                    let ghost vpre = v@;
                    v.push(cells.len());
                    cells.push(arg);
                    proof {
                        let s = vpre.map_values(|x: usize| x as int);
                        assert(v@.map_values(|x: usize| x as int) =~= s.push(cpre.len() as int));
                        assert forall|i: int| 0 <= i < cells@.len() implies #[trigger] cells@[i]@
                            == cpre.push(arg@)[i] by {
                            if i < cpreq.len() {
                                assert(cells@[i] == cpreq[i]);
                                assert(cpre[i] == cpreq[i]@);
                            } else {
                                assert(cells@[i] == arg);
                            }
                        }
                        assert(cells.deep_view() =~= cpre.push(arg@));
                    }
                }
            },
        }
        self.index = self.index + 1;
        if self.value_len < 0 {
            ReadStatus::Processing
        } else {
            if self.index == (self.value_len as usize) {
                ReadStatus::Finish
            } else {
                ReadStatus::Processing
            }
        }
    }

    /// Whether a new key token may interrupt this reader: always for an
    /// open-ended arity, and only once fully consumed for a fixed one.
    fn next_key(&self) -> (r: ReadStatus)
        ensures
            r is Finish <==> reader_ready(self@),
    {
        if self.value_len < 0 {
            ReadStatus::Finish
        } else {
            if self.index != (self.value_len as usize) {
                ReadStatus::Processing
            } else {
                ReadStatus::Finish
            }
        }
    }

    fn new(value: ItemValue, value_len: isize) -> (r: Reader)
        ensures
            r@ == (ReaderV { value: value@, arity: value_len as int, index: 0 }),
    {
        Reader { value, value_len, index: 0 }
    }
}

/// How a parse pass ended.
pub enum ParseOutcome {
    /// All tokens consumed.
    Done,
    /// The help sentinel was seen; the caller should render help and stop.
    Help,
    /// A key was matched while the previous key's fixed-arity reader had not
    /// consumed enough values; the offending key token is carried along for
    /// the caller's report.
    Unmatched(String),
}

impl View for ParseOutcome {
    type V = OutcomeV;

    open spec fn view(&self) -> OutcomeV {
        match self {
            ParseOutcome::Done => OutcomeV::Done,
            ParseOutcome::Help => OutcomeV::Help,
            ParseOutcome::Unmatched(s) => OutcomeV::Unmatched(s@),
        }
    }
}

/// The model of an optional active reader.
spec fn opt_reader_view(r: Option<Reader>) -> Option<ReaderV> {
    match r {
        Option::Some(rd) => Option::Some(rd@),
        Option::None => Option::None,
    }
}

impl Flag {
    /// An empty registry: no options, help sentinel `--help`, diagnostics on.
    pub fn new() -> (r: Flag)
        ensures
            r@ == (FlagV {
                help: "--help"@,
                entries: Seq::<EntryV>::empty(),
                cells: Seq::<Seq<char>>::empty(),
                warning: true,
            }),
            flag_wf(r@),
    {
        let r = Flag {
            help: "--help".to_owned(),
            keys: Vec::new(),
            cells: Vec::new(),
            is_warning: true,
        };
        proof {
            assert(r@ =~= (FlagV {
                help: "--help"@,
                entries: Seq::<EntryV>::empty(),
                cells: Seq::<Seq<char>>::empty(),
                warning: true,
            }));
        }
        r
    }

    /// Changes the sentinel token that triggers help display.
    pub fn set_help(&mut self, help: String)
        ensures
            final(self)@ == (FlagV { help: help@, ..old(self)@ }),
    {
        self.help = help;
        proof {
            assert(self@ =~= (FlagV { help: help@, ..old(self)@ }));
        }
    }

    /// Turns the diagnostic channel on.
    pub fn set_warning(&mut self)
        ensures
            final(self)@ == (FlagV { warning: true, ..old(self)@ }),
    {
        self.is_warning = true;
        proof {
            assert(self@ =~= (FlagV { warning: true, ..old(self)@ }));
        }
    }

    /// Turns the diagnostic channel off.
    pub fn set_nowarning(&mut self)
        ensures
            final(self)@ == (FlagV { warning: false, ..old(self)@ }),
    {
        self.is_warning = false;
        proof {
            assert(self@ =~= (FlagV { warning: false, ..old(self)@ }));
        }
    }

    /// The position of `key` among the registered options.
    fn find_key(&self, key: &String) -> (r: Option<usize>)
        ensures
            match r {
                Some(j) => j < self.keys@.len() && j as int == key_index(self@.entries, key@),
                None => key_index(self@.entries, key@) == -1,
            },
    {
        let mut i: usize = 0;
        while i < self.keys.len()
            invariant
                i <= self.keys@.len(),
                forall|t: int| 0 <= t < i ==> (#[trigger] self@.entries[t]).key != key@,
            decreases self.keys@.len() - i,
        {
            if self.keys[i].0 == *key {
                proof {
                    lemma_key_index(self@.entries, key@);
                    assert(self@.entries[i as int].key == key@);
                }
                return Some(i);
            }
            proof {
                assert(self@.entries[i as int].key != key@);
            }
            i = i + 1;
        }
        proof {
            lemma_key_index(self@.entries, key@);
        }
        None
    }

    /// Whether `key` is registered and was matched during parsing.
    pub fn has(&self, key: &str) -> (r: bool)
        ensures
            r == spec_has(self@, key@),
    {
        let k = key.to_owned();
        match self.find_key(&k) {
            Some(j) => self.keys[j].1.is,
            None => false,
        }
    }

    /// Walks the token list once, matching key tokens and feeding value
    /// tokens to the most recently matched option, exactly as
    /// [`crate::model::spec_parse`] describes.  The first token is
    /// conventionally the program path; it matches no key and is discarded.
    ///
    /// Returns how the pass ended; the caller chooses what to print and
    /// whether to exit.  On the help sentinel or an ordering error the
    /// remaining tokens are not processed.
    pub fn parse(&mut self, args: &Vec<String>) -> (r: ParseOutcome)
        requires
            flag_wf(old(self)@),
        ensures
            flag_wf(final(self)@),
            final(self)@.help == old(self)@.help,
            final(self)@.warning == old(self)@.warning,
            ({
                let res = spec_parse(old(self)@, args.deep_view());
                &&& final(self)@.entries == res.entries
                &&& final(self)@.cells == res.cells
                &&& r@ == res.outcome
            }),
    {
        let ghost toks: Seq<Seq<char>> = args.deep_view();
        let ghost res = spec_parse(old(self)@, toks);
        let mut reader: Option<Reader> = None;
        let mut i: usize = 0;
        while i < args.len()
            invariant
                flag_wf(self@),
                i <= args@.len(),
                toks == args.deep_view(),
                res == spec_parse(old(self)@, args.deep_view()),
                self@.help == old(self)@.help,
                self@.warning == old(self)@.warning,
                match reader {
                    Some(rd) => reader_wf(rd@, self@.cells.len() as int) && rd@.index <= i,
                    None => true,
                },
                spec_parse_from(
                    self@.help,
                    self@.entries,
                    self@.cells,
                    opt_reader_view(reader),
                    toks,
                    i as int,
                ) == res,
            decreases args@.len() - i,
        {
            proof {
                assert(toks[i as int] == args@[i as int]@);
            }
            if args[i] == self.help {
                return ParseOutcome::Help;
            }
            match self.find_key(&args[i]) {
                Some(j) => {
                    let ready = match &reader {
                        Some(rd) => match rd.next_key() {
                            ReadStatus::Finish => true,
                            ReadStatus::Processing => false,
                        },
                        None => true,
                    };
                    if !ready {
                        return ParseOutcome::Unmatched(args[i].clone());
                    }
                    let ghost pre = self@;
                    let vclone = self.keys[j].1.value.duplicate();
                    let vlen = self.keys[j].1.value_len;
                    self.keys[j].1.is = true;
                    reader = Some(Reader::new(vclone, vlen));
                    proof {
                        let e = pre.entries[j as int];
                        assert(self@.entries =~= pre.entries.update(
                            j as int,
                            EntryV { supplied: true, ..e },
                        ));
                        assert(self@ =~= (FlagV {
                            entries: pre.entries.update(j as int, EntryV { supplied: true, ..e }),
                            ..pre
                        }));
                        lemma_mark_supplied_wf(pre, j as int);
                        assert(opt_reader_view(reader) == Some(
                            ReaderV { value: e.value, arity: e.arity, index: 0 },
                        ));
                        assert(spec_parse_from(
                            self@.help,
                            self@.entries,
                            self@.cells,
                            opt_reader_view(reader),
                            toks,
                            i + 1,
                        ) == res);
                    }
                },
                None => {
                    let ghost pre = self@;
                    let ghost rpre = opt_reader_view(reader);
                    let mut finished = false;
                    match &mut reader {
                        Some(rd) => {
                            let st = rd.process(args[i].clone(), &mut self.cells);
                            if let ReadStatus::Finish = st {
                                finished = true;
                            }
                        },
                        None => {},
                    }
                    if finished {
                        reader = None;
                    }
                    proof {
                        if rpre is Some {
                            let (r2, cells2) = reader_process(rpre->0, pre.cells, toks[i as int]);
                            lemma_reader_process_wf(rpre->0, pre.cells, toks[i as int]);
                            assert(self@ =~= (FlagV { cells: cells2, ..pre }));
                            lemma_wf_cells_grow(pre, cells2);
                            assert(opt_reader_view(reader) == (if reader_done(r2) {
                                Option::<ReaderV>::None
                            } else {
                                Option::<ReaderV>::Some(r2)
                            }));
                        } else {
                            assert(self@ == pre);
                        }
                        assert(spec_parse_from(
                            self@.help,
                            self@.entries,
                            self@.cells,
                            opt_reader_view(reader),
                            toks,
                            i + 1,
                        ) == res);
                    }
                },
            }
            i = i + 1;
        }
        ParseOutcome::Done
    }

    /// Registers `key` with the given default, description and arity.  The
    /// default's cells are appended to the arena; an earlier registration of
    /// the same key is replaced, its cells left in place.  The returned
    /// handle shares the new cells with the stored option value.
    fn register_with_desc<T: ToItem>(
        &mut self,
        key: String,
        default: T,
        desc: String,
        value_len: isize,
    ) -> (r: Value)
        requires
            flag_wf(old(self)@),
        ensures
            flag_wf(final(self)@),
            final(self)@ == spec_register(
                old(self)@,
                key@,
                default.default_cells(),
                default.item_shape(old(self)@.cells.len() as int),
                desc@,
                value_len as int,
            ),
            r@ == default.item_shape(old(self)@.cells.len() as int),
    {
        let ghost f0 = old(self)@;
        let ghost shape = default.item_shape(f0.cells.len() as int);
        let ghost vals = default.default_cells();
        proof {
            default.shape_in_range(f0.cells.len() as int);
        }
        let r = default.to_item(&mut self.cells);
        let item = Item { value: r.duplicate(), desc, is: false, value_len };
        let ghost entry = EntryV {
            key: key@,
            value: shape,
            desc: item.desc@,
            supplied: false,
            arity: value_len as int,
        };
        let found = self.find_key(&key);
        match found {
            Some(j) => {
                self.keys[j] = (key, item);
                proof {
                    assert(self@.entries =~= f0.entries.update(j as int, entry));
                }
            },
            None => {
                self.keys.push((key, item));
                proof {
                    assert(self@.entries =~= f0.entries.push(entry));
                }
            },
        }
        proof {
            lemma_register_wf(f0, key@, vals, shape, entry.desc, value_len as int);
            assert(self@ =~= spec_register(f0, key@, vals, shape, entry.desc, value_len as int));
        }
        Value::new(r)
    }

    /// Registers `key` without a description.
    #[allow(dead_code)]
    fn register<T: ToItem>(&mut self, key: String, default: T, value_len: isize) -> (r: Value)
        requires
            flag_wf(old(self)@),
        ensures
            flag_wf(final(self)@),
            final(self)@ == spec_register(
                old(self)@,
                key@,
                default.default_cells(),
                default.item_shape(old(self)@.cells.len() as int),
                Seq::<char>::empty(),
                value_len as int,
            ),
            r@ == default.item_shape(old(self)@.cells.len() as int),
    {
        self.register_with_desc(key, default, String::new(), value_len)
    }

    /// Registers a scalar string option; it consumes one value token.
    pub fn reg_string(&mut self, key: String, default: String, desc: String) -> (r: Value)
        requires
            flag_wf(old(self)@),
        ensures
            flag_wf(final(self)@),
            final(self)@ == spec_register(
                old(self)@,
                key@,
                seq![default@],
                ItemV::Single(old(self)@.cells.len() as int),
                desc@,
                1,
            ),
            r@ == ItemV::Single(old(self)@.cells.len() as int),
    {
        self.register_with_desc(key, default, desc, 1)
    }

    /// Registers a scalar numeric option, stored as its decimal rendering; it
    /// consumes one value token.
    pub fn reg_u32(&mut self, key: String, default: u32, desc: String) -> (r: Value)
        requires
            flag_wf(old(self)@),
        ensures
            flag_wf(final(self)@),
            final(self)@ == spec_register(
                old(self)@,
                key@,
                seq![dec_digits_of(default as int)],
                ItemV::Single(old(self)@.cells.len() as int),
                desc@,
                1,
            ),
            r@ == ItemV::Single(old(self)@.cells.len() as int),
    {
        self.register_with_desc(key, default, desc, 1)
    }

    /// Whether every cell index of `value` lies within this registry's
    /// arena, so that the handle can be read against it.  True for every
    /// handle this registry returned.
    pub fn valid_handle(&self, value: &Value) -> (r: bool)
        ensures
            r == item_wf(value@, self@.cells.len() as int),
    {
        match &value.v {
            ItemValue::Single(ci) => *ci < self.cells.len(),
            ItemValue::Multi(v) => {
                let ghost s = v@.map_values(|x: usize| x as int);
                let mut k: usize = 0;
                while k < v.len()
                    invariant
                        k <= v@.len(),
                        s == v@.map_values(|x: usize| x as int),
                        value@ == ItemV::Multi(s),
                        forall|t: int| 0 <= t < k ==> 0 <= #[trigger] s[t] < self@.cells.len(),
                    decreases v@.len() - k,
                {
                    proof {
                        assert(s[k as int] == v@[k as int] as int);
                    }
                    if v[k] >= self.cells.len() {
                        proof {
                            assert(!(0 <= s[k as int] < self@.cells.len()));
                            if seq_in_range(s, 0, self@.cells.len() as int) {
                                assert(0 <= s[k as int] < self@.cells.len());
                            }
                            lemma_item_wf_multi(s, self@.cells.len() as int);
                            assert(value@ == ItemV::Multi(s));
                        }
                        return false;
                    }
                    k = k + 1;
                }
                proof {
                    assert(seq_in_range(s, 0, self@.cells.len() as int));
                }
                true
            },
        }
    }

    /// Reads a handle as a scalar: the content of its one cell, or `None` for
    /// a sequence value, which is a shape mismatch the caller reports.
    pub fn read_string(&self, value: &Value) -> (r: Option<String>)
        requires
            item_wf(value@, self@.cells.len() as int),
        ensures
            match value@ {
                ItemV::Single(ci) => r is Some && r->0@ == self@.cells[ci],
                ItemV::Multi(_) => r is None,
            },
    {
        match &value.v {
            ItemValue::Single(ci) => {
                let s = self.cells[*ci].clone();
                proof {
                    assert(self@.cells[*ci as int] == self.cells@[*ci as int]@);
                }
                Some(s)
            },
            ItemValue::Multi(_) => None,
        }
    }

    /// Reads a handle as a number: its one cell's content under the unsigned
    /// decimal grammar, or `None` for a sequence value or a content that is
    /// not a number — both usage errors the caller reports.
    pub fn read_u32(&self, value: &Value) -> (r: Option<u32>)
        requires
            item_wf(value@, self@.cells.len() as int),
        ensures
            match value@ {
                ItemV::Single(ci) => {
                    &&& (r is Some <==> u32_accepts(self@.cells[ci]))
                    &&& (r is Some ==> r->0 == u32_value_of(self@.cells[ci]))
                },
                ItemV::Multi(_) => r is None,
            },
    {
        match self.read_string(value) {
            Some(s) => parse_u32(s.as_str()),
            None => None,
        }
    }

    /// Reads a handle as a sequence: the contents of its cells in positional
    /// order, or `None` for a scalar value, which is a shape mismatch the
    /// caller reports.
    pub fn read_vector(&self, value: &Value) -> (r: Option<Vec<String>>)
        requires
            item_wf(value@, self@.cells.len() as int),
        ensures
            match value@ {
                ItemV::Single(_) => r is None,
                ItemV::Multi(s) => r is Some && r->0.deep_view() == Seq::new(
                    s.len(),
                    |t: int| self@.cells[s[t]],
                ),
            },
    {
        match &value.v {
            ItemValue::Single(_) => None,
            ItemValue::Multi(v) => {
                let ghost s = v@.map_values(|x: usize| x as int);
                proof {
                    assert(value@ == ItemV::Multi(s));
                    assert(item_wf(ItemV::Multi(s), self@.cells.len() as int));
                    lemma_multi_indices_bound(s, self@.cells.len() as int);
                }
                let mut out: Vec<String> = Vec::new();
                let mut k: usize = 0;
                while k < v.len()
                    invariant
                        k <= v@.len(),
                        s == v@.map_values(|x: usize| x as int),
                        forall|t: int| 0 <= t < s.len() ==> 0 <= #[trigger] s[t]
                            < self@.cells.len(),
                        out.deep_view() == Seq::new(k as nat, |t: int| self@.cells[s[t]]),
                    decreases v@.len() - k,
                {
                    proof {
                        assert(s[k as int] == v@[k as int] as int);
                        assert(self@.cells[s[k as int]] == self.cells@[v@[k as int] as int]@);
                    }
                    let c = self.cells[v[k]].clone();
                    let ghost opre: Seq<Seq<char>> = out.deep_view();
                    let ghost opreq: Seq<String> = out@;
                    out.push(c);
                    proof {
                        let prev = Seq::new(k as nat, |t: int| self@.cells[s[t]]);
                        let target = Seq::new((k + 1) as nat, |t: int| self@.cells[s[t]]);
                        assert(opre == prev);
                        assert(opre.len() == opreq.len());
                        assert forall|t: int| 0 <= t < out@.len() implies #[trigger] out@[t]@
                            == target[t] by {
                            if t < opreq.len() {
                                assert(out@[t] == opreq[t]);
                                assert(opre[t] == opreq[t]@);
                                assert(opre[t] == prev[t]);
                                assert(prev[t] == self@.cells[s[t]]);
                                assert(target[t] == self@.cells[s[t]]);
                            } else {
                                assert(out@[t] == c);
                                assert(target[t] == self@.cells[s[t]]);
                            }
                        }
                        assert(out.deep_view() =~= target);
                    }
                    k = k + 1;
                }
                proof {
                    assert(out.deep_view() =~= Seq::new(s.len(), |t: int| self@.cells[s[t]]));
                }
                Some(out)
            },
        }
    }

    /// The help text: one block per registered option showing its key, its
    /// current value and its description, in registration order.
    pub fn help_text(&self) -> (r: String)
        requires
            flag_wf(self@),
        ensures
            r@ == render_help(self@),
    {
        let mut out = "help:\n".to_owned();
        let mut i: usize = 0;
        while i < self.keys.len()
            invariant
                flag_wf(self@),
                i <= self.keys@.len(),
                out@ == "help:\n"@ + render_entries(
                    self@.entries.subrange(0, i as int),
                    self@.cells,
                ),
            decreases self.keys@.len() - i,
        {
            let ghost e = self@.entries[i as int];
            let ghost pre0: Seq<char> = out@;
            out.append("\t");
            out.append(self.keys[i].0.as_str());
            out.append("\n\t\tdefault: ");
            let ghost pre1: Seq<char> = out@;
            proof {
                assert(pre1 =~= pre0 + "\t"@ + e.key + "\n\t\tdefault: "@);
            }
            match &self.keys[i].1.value {
                ItemValue::Single(ci) => {
                    proof {
                        assert(e.value == ItemV::Single(*ci as int));
                        assert(self@.cells[*ci as int] == self.cells@[*ci as int]@);
                    }
                    out.append(self.cells[*ci].as_str());
                },
                ItemValue::Multi(v) => {
                    let ghost s = v@.map_values(|x: usize| x as int);
                    proof {
                        assert(e.value == ItemV::Multi(s));
                        assert(item_wf(e.value, self@.cells.len() as int));
                        lemma_multi_indices_bound(s, self@.cells.len() as int);
                        reveal_strlit(" ");
                    }
                    let mut k: usize = 0;
                    while k < v.len()
                        invariant
                            flag_wf(self@),
                            k <= v@.len(),
                            s == v@.map_values(|x: usize| x as int),
                            forall|t: int| 0 <= t < s.len() ==> 0 <= #[trigger] s[t]
                                < self@.cells.len(),
                            " "@ == seq![' '],
                            out@ == pre1 + render_multi(s.subrange(0, k as int), self@.cells),
                        decreases v@.len() - k,
                    {
                        proof {
                            assert(s[k as int] == v@[k as int] as int);
                            assert(self@.cells[s[k as int]] == self.cells@[v@[k as int] as int]@);
                        }
                        out.append(self.cells[v[k]].as_str());
                        out.append(" ");
                        k = k + 1;
                        proof {
                            let sub = s.subrange(0, k as int);
                            assert(sub.drop_last() =~= s.subrange(0, k - 1));
                            assert(sub.last() == s[k - 1]);
                            assert(out@ =~= pre1 + render_multi(sub, self@.cells));
                        }
                    }
                    proof {
                        assert(s.subrange(0, s.len() as int) =~= s);
                    }
                },
            }
            out.append("\n\t\tdesc: ");
            out.append(self.keys[i].1.desc.as_str());
            out.append("\n");
            i = i + 1;
            proof {
                let sub = self@.entries.subrange(0, i as int);
                assert(sub.drop_last() =~= self@.entries.subrange(0, i - 1));
                assert(sub.last() == e);
                assert(out@ =~= pre0 + render_entry(e, self@.cells));
                assert(out@ =~= "help:\n"@ + render_entries(sub, self@.cells));
            }
        }
        proof {
            assert(self@.entries.subrange(0, self@.entries.len() as int) =~= self@.entries);
        }
        out
    }

    /// Registers a sequence option of fixed arity: it must consume exactly as
    /// many value tokens as it has default entries.
    pub fn reg_fixed_str_vec(&mut self, key: String, default: VecDeque<String>, desc: String) -> (r:
        Value)
        requires
            flag_wf(old(self)@),
            default@.len() <= isize::MAX,
        ensures
            flag_wf(final(self)@),
            final(self)@ == spec_register(
                old(self)@,
                key@,
                default.deep_view(),
                multi_shape(old(self)@.cells.len() as int, default@.len() as int),
                desc@,
                default@.len() as int,
            ),
            r@ == multi_shape(old(self)@.cells.len() as int, default@.len() as int),
    {
        let len = default.len();
        self.register_with_desc(key, default, desc, len as isize)
    }

    /// Registers an open-ended sequence option: it consumes value tokens
    /// until the next key token or the end of the input.
    pub fn reg_lengthen_str_vec(
        &mut self,
        key: String,
        default: VecDeque<String>,
        desc: String,
    ) -> (r: Value)
        requires
            flag_wf(old(self)@),
        ensures
            flag_wf(final(self)@),
            final(self)@ == spec_register(
                old(self)@,
                key@,
                default.deep_view(),
                multi_shape(old(self)@.cells.len() as int, default@.len() as int),
                desc@,
                -1,
            ),
            r@ == multi_shape(old(self)@.cells.len() as int, default@.len() as int),
    {
        self.register_with_desc(key, default, desc, -1)
    }
}

} // verus!
