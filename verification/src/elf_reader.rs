//! Symbol images: the function records of one ELF binary, sorted by start
//! address, with address-to-function lookup.

use elf::endian::AnyEndian;
use elf::ElfStream;
use std::cmp::Ordering;
use std::io::Cursor;
use vstd::prelude::*;

verus! {

/// How a record or a frame is classified.
#[derive(PartialEq, Eq, Debug, Clone, Copy, Hash, Structural)]
#[non_exhaustive]
pub enum FunType {
    /// A function with an extent taken from a symbol.
    LocalFunc,
    /// A placeholder for code that no symbol describes.
    ExternalFunc,
}

/// The symbol type that the ELF format gives to functions.
pub const STT_FUNC: u8 = 2;

/// Why an image could not be built.
#[derive(PartialEq, Eq, Debug, Clone, Copy, Structural)]
pub enum ElfError {
    /// The bytes are not an ELF file that can be read.
    Unparseable,
    /// The file has no symbol table.
    NoSymbolTable,
    /// A function symbol has no name in the string table.
    BadName,
    /// A function symbol's address plus its size does not fit in 64 bits.
    BadExtent,
    /// The symbol table names no function with an extent.
    NoFunctions,
    /// The symbol table names more functions than a record id can count.
    TooManyFunctions,
}

/// One entry of a symbol table: its name as far as the string table gives
/// one, its symbol type, its value and its size.
#[derive(Debug)]
pub struct RawSymbol {
    pub name: Option<String>,
    pub symtype: u8,
    pub value: u64,
    pub size: u64,
}

/// What a [`RawSymbol`] holds, with its name as a sequence of characters.
pub struct SymbolModel {
    pub name: Option<Seq<char>>,
    pub symtype: u8,
    pub value: u64,
    pub size: u64,
}

impl View for RawSymbol {
    type V = SymbolModel;

    open spec fn view(&self) -> SymbolModel {
        SymbolModel {
            name: match self.name {
                Some(n) => Some(n@),
                None => None,
            },
            symtype: self.symtype,
            value: self.value,
            size: self.size,
        }
    }
}

/// The models of a sequence of symbols.
pub open spec fn symbol_models(symbols: Seq<RawSymbol>) -> Seq<SymbolModel> {
    Seq::new(symbols.len(), |i: int| symbols[i]@)
}

/// One function of an image: its position in the image, its name and the
/// half-open address range `[start, end)` that it occupies.
#[derive(Clone, Debug)]
pub struct Func {
    pub id: u32,
    pub func_type: FunType,
    pub name: String,
    pub start: u64,
    pub end: u64,
}

/// What a [`Func`] holds, with its name as a sequence of characters.
pub struct FuncModel {
    pub id: u32,
    pub func_type: FunType,
    pub name: Seq<char>,
    pub start: u64,
    pub end: u64,
}

impl View for Func {
    type V = FuncModel;

    open spec fn view(&self) -> FuncModel {
        FuncModel {
            id: self.id,
            func_type: self.func_type,
            name: self.name@,
            start: self.start,
            end: self.end,
        }
    }
}

impl FuncModel {
    /// `pc` lies in `[start, end)`.
    pub open spec fn covers(self, pc: u64) -> bool {
        self.start <= pc < self.end
    }
}

/// The function records of one ELF binary. The fields are open to change;
/// [`ElfReader::check`] tells whether they satisfy the invariant of an
/// image, which [`ElfReader::new`] and [`ElfReader::from_symbols`]
/// establish.
#[derive(Clone, Debug)]
pub struct ElfReader {
    /// The number of the image among the images of a tracer.
    pub id: u32,
    /// The name of the image.
    pub name: String,
    /// Where the image starts: the start of its first record.
    pub start: u64,
    /// Where the image ends: the end of its last record.
    pub end: u64,
    /// The records, sorted by start address.
    pub func_vec: Vec<Func>,
}

/// What an [`ElfReader`] holds: its id, name, overall address range and its
/// records in order.
pub struct ImageModel {
    pub id: u32,
    pub name: Seq<char>,
    pub start: u64,
    pub end: u64,
    pub records: Seq<FuncModel>,
}

/// The models of a sequence of records.
pub open spec fn func_models(funcs: Seq<Func>) -> Seq<FuncModel> {
    Seq::new(funcs.len(), |i: int| funcs[i]@)
}

/// The records are in ascending order of start address.
pub open spec fn sorted_by_start(records: Seq<FuncModel>) -> bool {
    forall|i: int, j: int| 0 <= i <= j < records.len() ==> records[i].start <= records[j].start
}

impl ImageModel {
    /// The invariant of an image: its range is not inverted, every record
    /// carries its own position as id, is local and has a range that is not
    /// inverted, and the records are sorted by start address.
    pub open spec fn wf(self) -> bool {
        &&& self.start <= self.end
        &&& self.records.len() <= u32::MAX
        &&& forall|i: int|
            0 <= i < self.records.len() ==> {
                &&& (#[trigger] self.records[i]).id == i
                &&& self.records[i].func_type == FunType::LocalFunc
                &&& self.records[i].start <= self.records[i].end
            }
        &&& sorted_by_start(self.records)
    }

    /// Record `k` is the one that a lookup of `pc` yields: it covers `pc`
    /// and no later record starts at or before `pc`.
    pub open spec fn hit(self, pc: u64, k: int) -> bool {
        &&& 0 <= k < self.records.len()
        &&& self.records[k].covers(pc)
        &&& forall|j: int| k < j < self.records.len() ==> pc < (#[trigger] self.records[j]).start
    }

    /// The record that a lookup of `pc` yields, if there is one.
    pub open spec fn lookup(self, pc: u64) -> Option<FuncModel> {
        if exists|k: int| self.hit(pc, k) {
            Some(self.records[choose|k: int| self.hit(pc, k)])
        } else {
            None
        }
    }

    /// The record at position `id`, provided it carries that id.
    pub open spec fn record(self, id: u32) -> Option<FuncModel> {
        if id < self.records.len() && self.records[id as int].id == id {
            Some(self.records[id as int])
        } else {
            None
        }
    }

    /// `pc` lies in the image's range, the upper end included.
    pub open spec fn contains(self, pc: u64) -> bool {
        self.start <= pc <= self.end
    }

    /// No record reaches into the next one.
    pub open spec fn separated(self) -> bool {
        forall|i: int, j: int|
            0 <= i < j < self.records.len() ==> self.records[i].end <= self.records[j].start
    }
}

impl View for ElfReader {
    type V = ImageModel;

    open spec fn view(&self) -> ImageModel {
        ImageModel {
            id: self.id,
            name: self.name@,
            start: self.start,
            end: self.end,
            records: func_models(self.func_vec@),
        }
    }
}

/// At most one record is the hit of a lookup.
pub proof fn lemma_hit_unique(image: ImageModel, pc: u64, k1: int, k2: int)
    requires
        image.hit(pc, k1),
        image.hit(pc, k2),
    ensures
        k1 == k2,
{
    if k1 < k2 {
        assert(pc < image.records[k2].start);
    } else if k2 < k1 {
        assert(pc < image.records[k1].start);
    }
}

impl ElfReader {
    /// An image with the given fields and records, taken as they are. The
    /// result need not satisfy the invariant of an image: [`ElfReader::check`]
    /// tells.
    pub fn dummy(id: u32, name: &str, start: u64, end: u64, func_vec: Option<Vec<Func>>) -> (image:
        ElfReader)
        ensures
            image@.id == id,
            image@.name == name@,
            image@.start == start,
            image@.end == end,
            image@.records == match func_vec {
                Some(v) => func_models(v@),
                None => Seq::<FuncModel>::empty(),
            },
    {
        let records: Vec<Func> = match func_vec {
            Some(v) => v,
            None => Vec::new(),
        };
        ElfReader { id, name: name.to_owned(), start, end, func_vec: records }
    }

    /// Whether the image satisfies its invariant.
    pub fn check(&self) -> (ok: bool)
        ensures
            ok == self@.wf(),
    {
        if self.start > self.end || self.func_vec.len() > u32::MAX as usize {
            return false;
        }
        let n: usize = self.func_vec.len();
        let mut i: usize = 0;
        while i < n
            invariant
                i <= n,
                n == self.func_vec.len(),
                n <= u32::MAX,
                forall|k: int|
                    0 <= k < i ==> {
                        &&& (#[trigger] self@.records[k]).id == k
                        &&& self@.records[k].func_type == FunType::LocalFunc
                        &&& self@.records[k].start <= self@.records[k].end
                    },
                forall|a: int, b: int|
                    0 <= a <= b < i ==> self@.records[a].start <= self@.records[b].start,
            decreases n - i,
        {
            let f = &self.func_vec[i];
            let ordered: bool = i == 0 || self.func_vec[i - 1].start <= f.start;
            if f.id as usize != i || f.func_type != FunType::LocalFunc || f.start > f.end
                || !ordered {
                proof {
                    let k = i as int;
                    assert(self@.records[k] == self.func_vec@[k]@);
                    if !ordered {
                        assert(self@.records[k - 1] == self.func_vec@[k - 1]@);
                        assert(!(self@.records[k - 1].start <= self@.records[k].start));
                    }
                }
                return false;
            }
            proof {
                let k = i as int;
                assert(self@.records[k] == self.func_vec@[k]@);
                assert forall|a: int, b: int| 0 <= a <= b < i + 1 implies self@.records[a].start
                    <= self@.records[b].start by {
                    if b == k && a < k {
                        assert(self@.records[k - 1] == self.func_vec@[k - 1]@);
                        assert(self@.records[a].start <= self@.records[k - 1].start);
                    }
                }
            }
            i = i + 1;
        }
        true
    }

    /// The record whose range holds `value`. Of several such records it is
    /// the last one in order, and only if no record after it starts at or
    /// before `value`; where records do not reach into one another that is
    /// the only record holding `value`.
    pub fn find(&self, value: u64) -> (found: Option<&Func>)
        requires
            self@.wf(),
        ensures
            match found {
                Some(f) => self@.lookup(value) == Some(f@) && self@.hit(value, f.id as int),
                None => self@.lookup(value) is None,
            },
    {
        let n: usize = self.func_vec.len();
        let mut lo: usize = 0;
        let mut hi: usize = n;
        while lo < hi
            invariant
                lo <= hi <= n,
                n == self.func_vec.len(),
                self@.wf(),
                forall|k: int| 0 <= k < lo ==> (#[trigger] self@.records[k]).start <= value,
                forall|k: int| hi <= k < n ==> value < (#[trigger] self@.records[k]).start,
            decreases hi - lo,
        {
            let mid: usize = lo + (hi - lo) / 2;
            assert(self@.records[mid as int] == self.func_vec@[mid as int]@);
            if self.func_vec[mid].start <= value {
                lo = mid + 1;
            } else {
                hi = mid;
            }
        }
        if lo == 0 {
            assert forall|k: int| !self@.hit(value, k) by {
                if 0 <= k < n {
                    assert(value < self@.records[k].start);
                }
            }
            return None;
        }
        let f = &self.func_vec[lo - 1];
        assert(self@.records[lo - 1] == f@);
        if value < f.end {
            proof {
                assert(self@.hit(value, lo - 1));
                let c = choose|k: int| self@.hit(value, k);
                lemma_hit_unique(self@, value, c, lo - 1);
            }
            Some(f)
        } else {
            assert forall|k: int| !self@.hit(value, k) by {
                if 0 <= k < n {
                    if k < lo - 1 {
                        assert(self@.records[lo - 1].start <= value);
                    } else if k >= lo {
                        assert(value < self@.records[k].start);
                    }
                }
            }
            None
        }
    }

    /// The record at position `id`, provided it carries that id.
    pub fn get_func(&self, id: u32) -> (found: Option<&Func>)
        ensures
            match found {
                Some(f) => self@.record(id) == Some(f@),
                None => self@.record(id) is None,
            },
    {
        if (id as usize) < self.func_vec.len() {
            let f = &self.func_vec[id as usize];
            assert(self@.records[id as int] == f@);
            if f.id == id {
                Some(f)
            } else {
                None
            }
        } else {
            None
        }
    }

    /// Where the image lies relative to `pc`: `Greater` when `pc` is below
    /// its start, `Less` when `pc` is above its end, else `Equal`. The end
    /// itself counts as inside, for images whose last function is empty.
    pub fn reader_cmp(&self, pc: u64) -> (side: Ordering)
        ensures
            side == Ordering::Greater <==> pc < self@.start,
            side == Ordering::Less <==> self@.start <= pc && self@.end < pc,
            side == Ordering::Equal <==> self@.contains(pc),
    {
        if self.start > pc {
            Ordering::Greater
        } else if self.end < pc {
            Ordering::Less
        } else {
            Ordering::Equal
        }
    }

    /// Whether `pc` lies in the image's range, the upper end included.
    pub fn contains(&self, pc: u64) -> (inside: bool)
        ensures
            inside == self@.contains(pc),
    {
        match self.reader_cmp(pc) {
            Ordering::Equal => true,
            _ => false,
        }
    }

    /// The records of the image, in order.
    pub fn func_vec(&self) -> (records: &[Func])
        ensures
            func_models(records@) == self@.records,
    {
        self.func_vec.as_slice()
    }
}


/// The error of the `elf` crate, `elf::ParseError`, carried through as it
/// is: nothing is known of what it holds.
#[verifier::external_type_specification]
#[verifier::external_body]
pub struct ExParseError(elf::ParseError);

/// The symbol table of the ELF file made of the bytes `data`, as the `elf`
/// crate reads it: nothing where the file cannot be read, `Some(None)` where
/// it has no symbol table, else every entry of the table in order.
pub uninterp spec fn elf_symbols(data: Seq<u8>) -> Option<Option<Seq<SymbolModel>>>;

/// Opens `data` with `elf::ElfStream::open_stream`, asks it for the symbol
/// table with `symbol_table`, and hands out every entry with the name that
/// `StringTable::get` finds for it. The contract claims only that the outcome
/// is a function of the bytes, which it names [`elf_symbols`].
#[verifier::external_body]
fn read_symbols(data: &[u8]) -> (table: Result<Option<Vec<RawSymbol>>, elf::ParseError>)
    ensures
        match table {
            Ok(Some(symbols)) => elf_symbols(data@) == Some(Some(symbol_models(symbols@))),
            Ok(None) => elf_symbols(data@) == Some(None::<Seq<SymbolModel>>),
            Err(_) => elf_symbols(data@) is None,
        },
{
    let mut stream = ElfStream::<AnyEndian, _>::open_stream(Cursor::new(data))?;
    let tables = stream.symbol_table()?;
    Ok(tables.map(|(symtab, strtab)| {
        symtab.iter().map(|s| RawSymbol {
            name: strtab.get(s.st_name as usize).ok().map(|n| n.to_string()),
            symtype: s.st_symtype(),
            value: s.st_value,
            size: s.st_size,
        }).collect()
    }))
}

impl SymbolModel {
    /// The symbol names a function.
    pub open spec fn is_function(self) -> bool {
        self.symtype == STT_FUNC
    }

    /// What is wrong with the symbol, if anything: a function symbol needs a
    /// name and an end address that fits in 64 bits.
    pub open spec fn fault(self) -> Option<ElfError> {
        if !self.is_function() {
            None
        } else if self.name is None {
            Some(ElfError::BadName)
        } else if self.value + self.size > u64::MAX {
            Some(ElfError::BadExtent)
        } else {
            None
        }
    }

    /// The symbol names a function with an address or a size: one that an
    /// image keeps.
    pub open spec fn is_local(self) -> bool {
        self.is_function() && !(self.size == 0 && self.value == 0)
    }

    /// The record that the symbol gives, before it has its place.
    pub open spec fn as_func(self) -> FuncModel {
        FuncModel {
            id: 0,
            func_type: FunType::LocalFunc,
            name: self.name.unwrap(),
            start: self.value,
            end: (self.value + self.size) as u64,
        }
    }
}

/// The fault of the first symbol that has one.
pub open spec fn first_fault(symbols: Seq<SymbolModel>) -> Option<ElfError>
    decreases symbols.len(),
{
    if symbols.len() == 0 {
        None
    } else {
        match first_fault(symbols.drop_last()) {
            Some(e) => Some(e),
            None => symbols.last().fault(),
        }
    }
}

/// The position just after the last record that starts at or before `key`.
pub open spec fn rank(records: Seq<FuncModel>, key: u64) -> int
    decreases records.len(),
{
    if records.len() == 0 {
        0
    } else if records.last().start <= key {
        records.len() as int
    } else {
        rank(records.drop_last(), key)
    }
}

/// `records` with `f` put in after the last record that starts at or before
/// it.
pub open spec fn insert_by_start(records: Seq<FuncModel>, f: FuncModel) -> Seq<FuncModel> {
    records.insert(rank(records, f.start), f)
}

/// The records of the kept symbols in ascending order of start address,
/// symbols with the same start in the order of the table.
pub open spec fn sorted_locals(symbols: Seq<SymbolModel>) -> Seq<FuncModel>
    decreases symbols.len(),
{
    if symbols.len() == 0 {
        Seq::empty()
    } else if symbols.last().is_local() {
        insert_by_start(sorted_locals(symbols.drop_last()), symbols.last().as_func())
    } else {
        sorted_locals(symbols.drop_last())
    }
}

/// `records` with every id set to the record's position.
pub open spec fn numbered(records: Seq<FuncModel>) -> Seq<FuncModel> {
    Seq::new(
        records.len(),
        |i: int|
            FuncModel {
                id: i as u32,
                func_type: records[i].func_type,
                name: records[i].name,
                start: records[i].start,
                end: records[i].end,
            },
    )
}

/// Why no image can be built from `symbols`, if that is so.
pub open spec fn build_fault(symbols: Seq<SymbolModel>) -> Option<ElfError> {
    match first_fault(symbols) {
        Some(e) => Some(e),
        None => if sorted_locals(symbols).len() == 0 {
            Some(ElfError::NoFunctions)
        } else if sorted_locals(symbols).len() > u32::MAX {
            Some(ElfError::TooManyFunctions)
        } else {
            None
        },
    }
}

/// The image that `symbols` give: the kept records sorted and numbered, and
/// a range from the start of the first to the end of the last.
pub open spec fn built_image(id: u32, name: Seq<char>, symbols: Seq<SymbolModel>) -> ImageModel {
    let records = numbered(sorted_locals(symbols));
    ImageModel { id, name, start: records.first().start, end: records.last().end, records }
}

/// What building the image of the ELF file made of the bytes `data` comes
/// to, under the given id and name.
pub open spec fn parsed_image(id: u32, name: Seq<char>, data: Seq<u8>) -> Result<
    ImageModel,
    ElfError,
> {
    match elf_symbols(data) {
        None => Err(ElfError::Unparseable),
        Some(None) => Err(ElfError::NoSymbolTable),
        Some(Some(symbols)) => match build_fault(symbols) {
            Some(e) => Err(e),
            None => Ok(built_image(id, name, symbols)),
        },
    }
}

/// Everything from position `rank` on starts after `key`; in a sorted
/// sequence everything before it starts at or before `key`.
pub proof fn lemma_rank(records: Seq<FuncModel>, key: u64)
    ensures
        0 <= rank(records, key) <= records.len(),
        forall|i: int| rank(records, key) <= i < records.len() ==> key < records[i].start,
        sorted_by_start(records) ==> forall|i: int|
            0 <= i < rank(records, key) ==> records[i].start <= key,
    decreases records.len(),
{
    if records.len() > 0 && records.last().start > key {
        let front = records.drop_last();
        lemma_rank(front, key);
        assert forall|i: int| rank(records, key) <= i < records.len() implies key
            < records[i].start by {
            if i < front.len() {
                assert(records[i] == front[i]);
            }
        }
        if sorted_by_start(records) {
            assert forall|i: int, j: int| 0 <= i <= j < front.len() implies front[i].start
                <= front[j].start by {
                assert(records[i] == front[i] && records[j] == front[j]);
            }
            assert forall|i: int| 0 <= i < rank(records, key) implies records[i].start <= key by {
                assert(records[i] == front[i]);
            }
        }
    }
}

/// Putting a record into a sorted sequence leaves it sorted.
pub proof fn lemma_insert_sorted(records: Seq<FuncModel>, f: FuncModel)
    requires
        sorted_by_start(records),
    ensures
        sorted_by_start(insert_by_start(records, f)),
        insert_by_start(records, f).len() == records.len() + 1,
{
    lemma_rank(records, f.start);
}

/// The kept records come out sorted by start address.
pub proof fn lemma_sorted_locals(symbols: Seq<SymbolModel>)
    ensures
        sorted_by_start(sorted_locals(symbols)),
        forall|i: int|
            0 <= i < sorted_locals(symbols).len() ==> (#[trigger] sorted_locals(
                symbols,
            )[i]).func_type == FunType::LocalFunc,
        first_fault(symbols) is None ==> forall|i: int|
            0 <= i < sorted_locals(symbols).len() ==> (#[trigger] sorted_locals(symbols)[i]).start
                <= sorted_locals(symbols)[i].end,
    decreases symbols.len(),
{
    if symbols.len() > 0 {
        let rest = sorted_locals(symbols.drop_last());
        lemma_sorted_locals(symbols.drop_last());
        if symbols.last().is_local() {
            lemma_insert_sorted(rest, symbols.last().as_func());
            lemma_rank(rest, symbols.last().as_func().start);
        }
    }
}

/// Puts `f` into `records` after the last record that starts at or before
/// it.
fn insert_sorted(records: &mut Vec<Func>, f: Func)
    ensures
        func_models(final(records)@) == insert_by_start(func_models(old(records)@), f@),
{
    let ghost before = func_models(records@);
    let mut pos: usize = records.len();
    assert(before.take(before.len() as int) == before);
    while pos > 0 && records[pos - 1].start > f.start
        invariant
            pos <= records.len(),
            before == func_models(records@),
            rank(before, f.start) == rank(before.take(pos as int), f.start),
        decreases pos,
    {
        proof {
            let front = before.take(pos as int);
            assert(front.last() == records@[pos - 1]@);
            assert(front.drop_last() == before.take(pos - 1));
        }
        pos = pos - 1;
    }
    proof {
        let front = before.take(pos as int);
        if pos > 0 {
            assert(front.last() == records@[pos - 1]@);
        }
        assert(rank(before, f.start) == pos);
    }
    records.insert(pos, f);
    assert(func_models(records@) =~= before.insert(pos as int, f@));
}


/// A fault found after a run of symbols without one is the first fault.
proof fn lemma_first_fault_at(symbols: Seq<SymbolModel>, i: int)
    requires
        0 <= i < symbols.len(),
        first_fault(symbols.take(i)) is None,
        symbols[i].fault() is Some,
    ensures
        first_fault(symbols) == symbols[i].fault(),
    decreases symbols.len(),
{
    let front = symbols.drop_last();
    if i == symbols.len() - 1 {
        assert(front == symbols.take(i));
    } else {
        assert(front.take(i) == symbols.take(i));
        lemma_first_fault_at(front, i);
    }
}

/// Sets the id of every record to the record's position.
fn number_records(records: &mut Vec<Func>)
    requires
        old(records)@.len() <= u32::MAX,
    ensures
        final(records)@.len() == old(records)@.len(),
        func_models(final(records)@) == numbered(func_models(old(records)@)),
{
    let ghost before = func_models(records@);
    let n: usize = records.len();
    let mut i: usize = 0;
    while i < n
        invariant
            i <= n,
            n == records@.len(),
            n <= u32::MAX,
            before.len() == n,
            forall|k: int| 0 <= k < i ==> (#[trigger] records@[k])@ == numbered(before)[k],
            forall|k: int| i <= k < n ==> (#[trigger] records@[k])@ == before[k],
        decreases n - i,
    {
        records[i].id = i as u32;
        i = i + 1;
    }
    assert(func_models(records@) =~= numbered(before));
}

impl ElfReader {
    /// Builds an image from the entries of a symbol table. The function
    /// symbols with an address or a size become the records, sorted by start
    /// address and numbered by position; the image's range runs from the
    /// start of the first record to the end of the last.
    pub fn from_symbols(id: u32, name: &str, symbols: &[RawSymbol]) -> (built: Result<
        ElfReader,
        ElfError,
    >)
        ensures
            match built {
                Ok(image) => {
                    &&& build_fault(symbol_models(symbols@)) is None
                    &&& image@ == built_image(id, name@, symbol_models(symbols@))
                    &&& image@.wf()
                },
                Err(e) => build_fault(symbol_models(symbols@)) == Some(e),
            },
    {
        let ghost models = symbol_models(symbols@);
        let mut funcs: Vec<Func> = Vec::new();
        let n: usize = symbols.len();
        let mut i: usize = 0;
        while i < n
            invariant
                i <= n,
                n == symbols@.len(),
                models == symbol_models(symbols@),
                first_fault(models.take(i as int)) is None,
                func_models(funcs@) == sorted_locals(models.take(i as int)),
            decreases n - i,
        {
            let sym = &symbols[i];
            proof {
                assert(models.take(i + 1).drop_last() == models.take(i as int));
                assert(models.take(i + 1).last() == sym@);
            }
            if sym.symtype == STT_FUNC {
                let text: String = match &sym.name {
                    Some(text) => text.clone(),
                    None => {
                        proof {
                            lemma_first_fault_at(models, i as int);
                        }
                        return Err(ElfError::BadName);
                    },
                };
                let end: u64 = match sym.value.checked_add(sym.size) {
                    Some(end) => end,
                    None => {
                        proof {
                            lemma_first_fault_at(models, i as int);
                        }
                        return Err(ElfError::BadExtent);
                    },
                };
                if !(sym.size == 0 && sym.value == 0) {
                    let f = Func {
                        id: 0,
                        func_type: FunType::LocalFunc,
                        name: text,
                        start: sym.value,
                        end,
                    };
                    assert(f@ == sym@.as_func());
                    insert_sorted(&mut funcs, f);
                }
            }
            i = i + 1;
        }
        proof {
            assert(models.take(n as int) == models);
            lemma_sorted_locals(models);
        }
        if funcs.len() == 0 {
            return Err(ElfError::NoFunctions);
        }
        if funcs.len() > u32::MAX as usize {
            return Err(ElfError::TooManyFunctions);
        }
        number_records(&mut funcs);
        let start: u64 = funcs[0].start;
        let end: u64 = funcs[funcs.len() - 1].end;
        let image = ElfReader { id, name: name.to_owned(), start, end, func_vec: funcs };
        proof {
            let sorted = sorted_locals(models);
            let records = numbered(sorted);
            assert(image@.records == records);
            assert(records.first() == records[0]);
            assert(records.last() == records[records.len() - 1]);
            assert(image@ == built_image(id, name@, models));
            assert(sorted_by_start(records)) by {
                assert forall|a: int, b: int| 0 <= a <= b < records.len() implies records[a].start
                    <= records[b].start by {
                    assert(sorted[a].start <= sorted[b].start);
                }
            }
            assert(sorted[0].start <= sorted[sorted.len() - 1].start);
        }
        Ok(image)
    }

    /// Builds the image of the ELF file made of the bytes `data`, under the
    /// given id and name.
    pub fn new(id: u32, name: &str, data: &[u8]) -> (built: Result<ElfReader, ElfError>)
        ensures
            match built {
                Ok(image) => parsed_image(id, name@, data@) == Ok::<ImageModel, ElfError>(image@)
                    && image@.wf(),
                Err(e) => parsed_image(id, name@, data@) == Err::<ImageModel, ElfError>(e),
            },
    {
        match read_symbols(data) {
            Err(_) => Err(ElfError::Unparseable),
            Ok(None) => Err(ElfError::NoSymbolTable),
            Ok(Some(symbols)) => Self::from_symbols(id, name, symbols.as_slice()),
        }
    }
}


/// The records of the kept symbols, in the order of the table.
pub open spec fn kept_locals(symbols: Seq<SymbolModel>) -> Seq<FuncModel>
    decreases symbols.len(),
{
    if symbols.len() == 0 {
        Seq::empty()
    } else if symbols.last().is_local() {
        kept_locals(symbols.drop_last()).push(symbols.last().as_func())
    } else {
        kept_locals(symbols.drop_last())
    }
}

/// How many of the records start before `key`.
pub open spec fn starts_below(records: Seq<FuncModel>, key: u64) -> int
    decreases records.len(),
{
    if records.len() == 0 {
        0
    } else if records.last().start < key {
        starts_below(records.drop_last(), key) + 1
    } else {
        starts_below(records.drop_last(), key)
    }
}

/// How many of the records start at or before `key`.
pub open spec fn starts_upto(records: Seq<FuncModel>, key: u64) -> int
    decreases records.len(),
{
    if records.len() == 0 {
        0
    } else if records.last().start <= key {
        starts_upto(records.drop_last(), key) + 1
    } else {
        starts_upto(records.drop_last(), key)
    }
}

/// Where record `q` stands once the records are sorted: after all records
/// that start before it, and after the records before it that start where
/// it does.
pub open spec fn place(records: Seq<FuncModel>, q: int) -> int {
    starts_below(records, records[q].start) + starts_upto(records.take(q), records[q].start)
        - starts_below(records.take(q), records[q].start)
}

/// Putting a record in adds it to the counts, wherever it goes.
proof fn lemma_counts_insert(records: Seq<FuncModel>, i: int, x: FuncModel, key: u64)
    requires
        0 <= i <= records.len(),
    ensures
        starts_upto(records.insert(i, x), key) == starts_upto(records, key) + if x.start <= key {
            1int
        } else {
            0int
        },
        starts_below(records.insert(i, x), key) == starts_below(records, key) + if x.start < key {
            1int
        } else {
            0int
        },
    decreases records.len(),
{
    let out = records.insert(i, x);
    if i == records.len() {
        assert(out.drop_last() == records);
        assert(out.last() == x);
    } else {
        assert(out.drop_last() == records.drop_last().insert(i, x));
        assert(out.last() == records.last());
        lemma_counts_insert(records.drop_last(), i, x, key);
    }
}

/// In a sorted sequence, the position just after the last record that
/// starts at or before `key` is the number of records that do.
proof fn lemma_rank_counts(records: Seq<FuncModel>, key: u64)
    requires
        sorted_by_start(records),
    ensures
        rank(records, key) == starts_upto(records, key),
        0 <= starts_upto(records, key) <= records.len(),
        0 <= starts_below(records, key) <= starts_upto(records, key),
    decreases records.len(),
{
    if records.len() > 0 {
        let front = records.drop_last();
        assert forall|i: int, j: int| 0 <= i <= j < front.len() implies front[i].start
            <= front[j].start by {
            assert(records[i] == front[i] && records[j] == front[j]);
        }
        lemma_rank_counts(front, key);
        if records.last().start <= key {
            lemma_rank(front, key);
            if rank(front, key) < front.len() {
                let r = rank(front, key);
                assert(key < front[r].start);
                assert(records[r].start <= records[records.len() - 1].start);
            }
        }
    }
}

/// The counts do not depend on the order of the records: they are the same
/// for the sorted records as for the records in the order of the table.
proof fn lemma_counts_kept(symbols: Seq<SymbolModel>, key: u64)
    ensures
        sorted_locals(symbols).len() == kept_locals(symbols).len(),
        starts_upto(sorted_locals(symbols), key) == starts_upto(kept_locals(symbols), key),
        starts_below(sorted_locals(symbols), key) == starts_below(kept_locals(symbols), key),
    decreases symbols.len(),
{
    if symbols.len() > 0 {
        let front = symbols.drop_last();
        lemma_counts_kept(front, key);
        if symbols.last().is_local() {
            let x = symbols.last().as_func();
            let rest = sorted_locals(front);
            lemma_rank(rest, x.start);
            lemma_counts_insert(rest, rank(rest, x.start), x, key);
            let k = kept_locals(symbols);
            assert(k.drop_last() == kept_locals(front));
            assert(k.last() == x);
        }
    }
}

/// Sorting is a stable rearrangement: the sorted records have the length of
/// the kept ones, and the record of every kept symbol stands after all
/// records that start before it and after those earlier in the table that
/// start where it does.
pub proof fn lemma_sorted_locals_place(symbols: Seq<SymbolModel>, q: int)
    requires
        0 <= q < kept_locals(symbols).len(),
    ensures
        sorted_locals(symbols).len() == kept_locals(symbols).len(),
        0 <= place(kept_locals(symbols), q) < sorted_locals(symbols).len(),
        sorted_locals(symbols)[place(kept_locals(symbols), q)] == kept_locals(symbols)[q],
    decreases symbols.len(),
{
    let front = symbols.drop_last();
    let k = kept_locals(symbols);
    let s = sorted_locals(symbols);
    lemma_counts_kept(symbols, k[q].start);
    if symbols.last().is_local() {
        let x = symbols.last().as_func();
        let table = kept_locals(front);
        let earlier = sorted_locals(front);
        let n = table.len() as int;
        let r = rank(earlier, x.start);
        assert(k.drop_last() == table);
        assert(k.last() == x);
        lemma_sorted_locals(front);
        lemma_rank(earlier, x.start);
        lemma_counts_kept(front, x.start);
        lemma_rank_counts(earlier, x.start);
        if q == n {
            assert(k.take(q) == table);
            assert(starts_below(k, x.start) == starts_below(table, x.start));
            assert(place(k, q) == r);
        } else {
            lemma_sorted_locals_place(front, q);
            let key = table[q].start;
            assert(k[q] == table[q]);
            assert(k.take(q) == table.take(q));
            let spot = place(table, q);
            assert(place(k, q) == spot + if x.start < key {
                1int
            } else {
                0int
            });
            assert(earlier[spot].start == key);
            if spot >= r {
                assert(x.start < earlier[spot].start);
                assert(s[spot + 1] == earlier[spot]);
            } else {
                assert(earlier[spot].start <= x.start);
                assert(s[spot] == earlier[spot]);
            }
        }
    } else {
        lemma_sorted_locals_place(front, q);
    }
}

/// An image built from symbols satisfies the invariant of an image. In
/// particular every record carries its position as id, and the records
/// stand in ascending order of start address.
pub proof fn lemma_built_image_wf(id: u32, name: Seq<char>, symbols: Seq<SymbolModel>)
    requires
        build_fault(symbols) is None,
    ensures
        built_image(id, name, symbols).wf(),
        forall|i: int|
            0 <= i < built_image(id, name, symbols).records.len() ==> (#[trigger] built_image(
                id,
                name,
                symbols,
            ).records[i]).id == i,
        forall|i: int, j: int|
            0 <= i && j == i + 1 && j < built_image(id, name, symbols).records.len()
                ==> (#[trigger] built_image(id, name, symbols).records[i]).start <= (
            #[trigger] built_image(id, name, symbols).records[j]).start,
{
    let sorted = sorted_locals(symbols);
    let records = numbered(sorted);
    lemma_sorted_locals(symbols);
    assert(built_image(id, name, symbols).records == records);
    assert forall|a: int, b: int| 0 <= a <= b < records.len() implies records[a].start
        <= records[b].start by {
        assert(sorted[a].start <= sorted[b].start);
    }
    assert(sorted[0].start <= sorted[sorted.len() - 1].start);
    assert forall|i: int| 0 <= i < records.len() implies {
        &&& (#[trigger] records[i]).id == i
        &&& records[i].func_type == FunType::LocalFunc
        &&& records[i].start <= records[i].end
    } by {
        assert(sorted[i].func_type == FunType::LocalFunc);
        assert(sorted[i].start <= sorted[i].end);
    }
}

/// A lookup that yields a record yields a record of the image that covers
/// the address; so it never yields a record without extent.
pub proof fn lemma_lookup_sound(image: ImageModel, pc: u64)
    ensures
        match image.lookup(pc) {
            Some(r) => {
                &&& r.start <= pc < r.end
                &&& r.start < r.end
                &&& exists|k: int| 0 <= k < image.records.len() && image.records[k] == r
            },
            None => true,
        },
{
    if exists|k: int| image.hit(pc, k) {
        let k = choose|k: int| image.hit(pc, k);
        assert(image.records[k].covers(pc));
    }
}

/// A lookup yields record `k` exactly when record `k` covers the address
/// and no later record starts at or before it.
pub proof fn lemma_lookup_exact(image: ImageModel, pc: u64, k: int)
    requires
        0 <= k < image.records.len(),
        image.wf(),
    ensures
        image.lookup(pc) == Some(image.records[k]) <==> image.hit(pc, k),
{
    if image.hit(pc, k) {
        let c = choose|c: int| image.hit(pc, c);
        lemma_hit_unique(image, pc, c, k);
    } else if exists|c: int| image.hit(pc, c) {
        let c = choose|c: int| image.hit(pc, c);
        assert(image.records[c].id == c);
        assert(image.records[k].id == k);
    }
}

/// Where no record reaches into a later one, a lookup yields a record
/// exactly when that record covers the address.
pub proof fn lemma_lookup_separated(image: ImageModel, pc: u64, k: int)
    requires
        0 <= k < image.records.len(),
        image.wf(),
        image.separated(),
    ensures
        image.lookup(pc) == Some(image.records[k]) <==> image.records[k].covers(pc),
{
    lemma_lookup_exact(image, pc, k);
    if image.records[k].covers(pc) {
        assert forall|j: int| k < j < image.records.len() implies pc < (
        #[trigger] image.records[j]).start by {
            assert(image.records[k].end <= image.records[j].start);
        }
    }
}

/// An address that no record covers is not found.
pub proof fn lemma_lookup_gap(image: ImageModel, pc: u64)
    requires
        forall|k: int| 0 <= k < image.records.len() ==> !(#[trigger] image.records[k]).covers(pc),
    ensures
        image.lookup(pc) is None,
{
    if exists|k: int| image.hit(pc, k) {
        let k = choose|k: int| image.hit(pc, k);
        assert(image.records[k].covers(pc));
    }
}

/// At the borders of a record: where no record reaches into a later one, a
/// record with an extent is found at its start and at its last address, and
/// is not what is found at its end.
pub proof fn lemma_lookup_at_borders(image: ImageModel, k: int)
    requires
        0 <= k < image.records.len(),
        image.wf(),
        image.separated(),
        image.records[k].start < image.records[k].end,
    ensures
        image.lookup(image.records[k].start) == Some(image.records[k]),
        image.lookup((image.records[k].end - 1) as u64) == Some(image.records[k]),
        image.lookup(image.records[k].end) != Some(image.records[k]),
{
    let r = image.records[k];
    lemma_lookup_separated(image, r.start, k);
    lemma_lookup_separated(image, (r.end - 1) as u64, k);
    lemma_lookup_separated(image, r.end, k);
}

/// Outside the image: nothing is found below the start of the first record,
/// nor, where no record reaches into a later one, from the end of the last
/// record on.
pub proof fn lemma_lookup_outside(image: ImageModel, pc: u64)
    requires
        image.wf(),
        image.records.len() > 0,
    ensures
        pc < image.records.first().start ==> image.lookup(pc) is None,
        image.separated() && pc >= image.records.last().end ==> image.lookup(pc) is None,
{
    let n = image.records.len() as int;
    if pc < image.records[0].start {
        assert forall|k: int| 0 <= k < n implies !(#[trigger] image.records[k]).covers(pc) by {
            assert(image.records[0].start <= image.records[k].start);
        }
        lemma_lookup_gap(image, pc);
    }
    if image.separated() && pc >= image.records[n - 1].end {
        assert forall|k: int| 0 <= k < n implies !(#[trigger] image.records[k]).covers(pc) by {
            if k < n - 1 {
                assert(image.records[k].end <= image.records[n - 1].start);
                assert(image.records[n - 1].start <= image.records[n - 1].end);
            }
        }
        lemma_lookup_gap(image, pc);
    }
}

} // verus!
