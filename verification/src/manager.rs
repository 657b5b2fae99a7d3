//! The call tracer: a shadow call stack and an append-only trace log, driven
//! by "jump to" and "return to" events and resolved against a set of images.

use crate::clock::unix_millis;
use crate::decode::{decode, JumpKind};
use crate::elf_reader::{parsed_image, ElfReader, FunType, Func, FuncModel, ImageModel};
use crate::model::{
    arranged, image_rank, images_overlap, initial, insert_image, lemma_call_keeps_inv,
    lemma_initial_inv, lemma_locate, lemma_ret_keeps_inv, lemma_sorted_images, numbered_images,
    parsed_images, ranges_overlap, sorted_images, tracer_of, tracer_on, with_id, BuildError,
    FileModel, TraceFault, TracerModel,
};
use vstd::prelude::*;
use vstd::slice::slice_to_vec;

verus! {

/// Which image of a tracer is meant: the main one, or the auxiliary one at
/// the given position.
#[derive(PartialEq, Eq, Clone, Copy, Hash, Debug, Structural)]
pub enum CurReader {
    MainReader,
    ProgReaders(usize),
}

/// One call of a function, as the tracer records it.
#[derive(Debug)]
pub struct FuncInstance {
    /// The position of the frame's record in its image.
    id: u32,
    /// The image that the frame was resolved in, if any.
    reader: Option<CurReader>,
    /// The frame's classification.
    func_type: FunType,
    /// The two return registers, set when the frame is left.
    ret_val: Option<(u64, Option<u64>)>,
    /// The registers at the call, until the frame is popped.
    paras: Option<Vec<u64>>,
    /// When the frame was entered.
    _start_time: u64,
    /// When the frame was left.
    _end_time: u64,
}

/// What a [`FuncInstance`] holds: the image and the record it was resolved
/// to, its classification, the return registers and the register snapshot
/// taken at the call, where they are kept, and the times of entry and exit.
pub struct FrameModel {
    pub id: u32,
    pub reader: Option<CurReader>,
    pub func_type: FunType,
    pub ret_val: Option<(u64, Option<u64>)>,
    pub paras: Option<Seq<u64>>,
    pub start_time: u64,
    pub end_time: u64,
}

/// The registers of a snapshot, if there is one.
pub open spec fn paras_model(paras: Option<Vec<u64>>) -> Option<Seq<u64>> {
    match paras {
        Some(v) => Some(v@),
        None => None,
    }
}

/// The registers of a borrowed snapshot, if there is one.
pub open spec fn paras_ref_model(paras: Option<&Vec<u64>>) -> Option<Seq<u64>> {
    match paras {
        Some(v) => Some(v@),
        None => None,
    }
}

impl View for FuncInstance {
    type V = FrameModel;

    closed spec fn view(&self) -> FrameModel {
        FrameModel {
            id: self.id,
            reader: self.reader,
            func_type: self.func_type,
            ret_val: self.ret_val,
            paras: paras_model(self.paras),
            start_time: self._start_time,
            end_time: self._end_time,
        }
    }
}

impl FrameModel {
    /// A frame just entered at time `t`, resolved in image `reader`.
    pub open spec fn entered(
        id: u32,
        func_type: FunType,
        reader: CurReader,
        t: u64,
        paras: Option<Seq<u64>>,
    ) -> FrameModel {
        FrameModel {
            id,
            reader: Some(reader),
            func_type,
            ret_val: None,
            paras,
            start_time: t,
            end_time: t,
        }
    }

    /// A frame just entered at time `t` for code that lies in no image.
    pub open spec fn entered_nowhere(id: u32, t: u64, paras: Option<Seq<u64>>) -> FrameModel {
        FrameModel {
            id,
            reader: None,
            func_type: FunType::ExternalFunc,
            ret_val: None,
            paras,
            start_time: t,
            end_time: t,
        }
    }

    /// The frame with its exit time set.
    pub open spec fn ended(self, t: u64) -> FrameModel {
        FrameModel { end_time: t, ..self }
    }

    /// The frame with its return registers set, or cleared where the tracer
    /// keeps no context.
    pub open spec fn returned(self, ret_val: Option<(u64, Option<u64>)>, show_context: bool)
        -> FrameModel {
        FrameModel {
            ret_val: if show_context {
                ret_val
            } else {
                None
            },
            ..self
        }
    }

    /// The frame as it is left when it is popped: exit time set, register
    /// snapshot released.
    pub open spec fn popped(self, t: u64) -> FrameModel {
        FrameModel { end_time: t, paras: None, ..self }
    }

    /// The frame stands for code that no symbol describes.
    pub open spec fn is_external(self) -> bool {
        self.func_type == FunType::ExternalFunc
    }
}

/// A copy of the register snapshot, if there is one.
fn clone_paras(paras: Option<&Vec<u64>>) -> (copy: Option<Vec<u64>>)
    ensures
        paras_model(copy) == paras_ref_model(paras),
{
    match paras {
        Some(v) => {
            let copy = v.clone();
            assert(copy@ =~= v@);
            Some(copy)
        },
        None => None,
    }
}

impl FuncInstance {
    /// A frame entered at `_start_time` in image `reader`, with a copy of the
    /// register snapshot.
    pub fn new(
        id: u32,
        func_type: FunType,
        reader: CurReader,
        _start_time: u64,
        paras: Option<&Vec<u64>>,
    ) -> (frame: Self)
        ensures
            frame@ == FrameModel::entered(
                id,
                func_type,
                reader,
                _start_time,
                paras_ref_model(paras),
            ),
    {
        FuncInstance {
            id,
            reader: Some(reader),
            func_type,
            ret_val: None,
            paras: clone_paras(paras),
            _start_time,
            _end_time: _start_time,
        }
    }

    /// A frame entered at `_start_time` for code that lies in no image. Such
    /// a frame is always external.
    pub fn new_with_nullreader(id: u32, _start_time: u64, paras: Option<&Vec<u64>>) -> (frame: Self)
        ensures
            frame@ == FrameModel::entered_nowhere(id, _start_time, paras_ref_model(paras)),
    {
        FuncInstance {
            id,
            reader: None,
            func_type: FunType::ExternalFunc,
            ret_val: None,
            paras: clone_paras(paras),
            _start_time,
            _end_time: _start_time,
        }
    }

    /// Sets the exit time.
    fn set_end_time(&mut self, end_time: u64)
        ensures
            final(self)@ == old(self)@.ended(end_time),
    {
        self._end_time = end_time;
    }

    /// Sets the return registers, or clears them where no context is kept.
    fn set_ret_val(&mut self, ret_val: Option<(u64, Option<u64>)>, show_context: bool)
        ensures
            final(self)@ == old(self)@.returned(ret_val, show_context),
    {
        if show_context {
            self.ret_val = ret_val;
        } else {
            self.ret_val = None;
        }
    }

    /// Sets the exit time and the return registers.
    fn set_end_and_ret(
        &mut self,
        end_time: u64,
        ret_val: Option<(u64, Option<u64>)>,
        show_context: bool,
    )
        ensures
            final(self)@ == old(self)@.ended(end_time).returned(ret_val, show_context),
    {
        self.set_end_time(end_time);
        self.set_ret_val(ret_val, show_context);
    }

    /// Replaces the register snapshot.
    fn set_paras(&mut self, paras: Option<Vec<u64>>)
        ensures
            final(self)@ == (FrameModel { paras: paras_model(paras), ..old(self)@ }),
    {
        self.paras = paras;
    }

    /// The position of the frame's record in its image.
    pub fn id(&self) -> (id: u32)
        ensures
            id == self@.id,
    {
        self.id
    }

    /// The image that the frame was resolved in, if any.
    pub fn reader(&self) -> (reader: Option<CurReader>)
        ensures
            reader == self@.reader,
    {
        self.reader
    }

    /// The frame's classification.
    pub fn func_type(&self) -> (func_type: FunType)
        ensures
            func_type == self@.func_type,
    {
        self.func_type
    }

    /// The return registers recorded when the frame was left, if any.
    pub fn ret_val(&self) -> (ret_val: Option<(u64, Option<u64>)>)
        ensures
            ret_val == self@.ret_val,
    {
        self.ret_val
    }

    /// The register snapshot taken at the call, while the frame keeps it.
    pub fn paras(&self) -> (paras: &Option<Vec<u64>>)
        ensures
            paras_model(*paras) == self@.paras,
    {
        &self.paras
    }

    /// The time at which the frame was entered.
    pub fn _start_time(&self) -> (t: u64)
        ensures
            t == self@.start_time,
    {
        self._start_time
    }

    /// The time at which the frame was left, or its entry time while it has
    /// not been left.
    pub fn _end_time(&self) -> (t: u64)
        ensures
            t == self@.end_time,
    {
        self._end_time
    }
}

/// The name and the bytes of an ELF file.
#[derive(Debug)]
pub struct ImageFile {
    pub name: String,
    pub data: Vec<u8>,
}

impl View for ImageFile {
    type V = FileModel;

    open spec fn view(&self) -> FileModel {
        FileModel { name: self.name@, data: self.data@ }
    }
}

/// The models of a sequence of files.
pub open spec fn file_models(files: Seq<ImageFile>) -> Seq<FileModel> {
    Seq::new(files.len(), |i: int| files[i]@)
}

/// The models of the files of an optional list.
pub open spec fn prog_file_models(files: Option<&Vec<ImageFile>>) -> Option<Seq<FileModel>> {
    match files {
        Some(v) => Some(file_models(v@)),
        None => None,
    }
}

/// The call tracer. Its frames live in one store and are known by their
/// position there; the shadow stack and the trace log hold such positions,
/// so that both speak of the same frames.
pub struct Manager {
    /// Whether register snapshots and return registers are kept.
    show_context: bool,
    /// The main image.
    main_reader: ElfReader,
    /// The image in which the last call was resolved.
    cur_reader: CurReader,
    /// The auxiliary images, sorted by start address.
    prog_readers: Option<Vec<ElfReader>>,
    /// Every frame that entered the stack or the log.
    frames: Vec<FuncInstance>,
    /// The trace log: positions of frames, oldest entry first.
    trace_log: Vec<usize>,
    /// The time stamp of each entry of the log.
    time_base: Vec<u64>,
    /// The shadow stack: positions of frames, bottom first.
    func_stack: Vec<usize>,
    /// The reading of the clock from which the tracer's time counts.
    init_time: u64,
    /// The latest time that the tracer has recorded.
    clock: u64,
}

/// The models of a sequence of images.
pub open spec fn image_models(images: Seq<ElfReader>) -> Seq<ImageModel> {
    Seq::new(images.len(), |i: int| images[i]@)
}

/// The models of a sequence of borrowed images.
pub open spec fn image_ref_models(images: Seq<&ElfReader>) -> Seq<ImageModel> {
    Seq::new(images.len(), |i: int| images[i]@)
}

/// The models of the images of an optional list.
pub open spec fn prog_models(progs: Option<Vec<ElfReader>>) -> Option<Seq<ImageModel>> {
    match progs {
        Some(v) => Some(image_models(v@)),
        None => None,
    }
}

/// The models of a sequence of frames.
pub open spec fn frame_models(frames: Seq<FuncInstance>) -> Seq<FrameModel> {
    Seq::new(frames.len(), |i: int| frames[i]@)
}

/// The models of the records of a stack dump.
pub open spec fn shown_models(entries: Seq<Option<&Func>>) -> Seq<Option<FuncModel>> {
    Seq::new(
        entries.len(),
        |d: int|
            match entries[d] {
                Some(f) => Some(f@),
                None => None,
            },
    )
}

impl View for Manager {
    type V = TracerModel;

    closed spec fn view(&self) -> TracerModel {
        TracerModel {
            show_context: self.show_context,
            main: self.main_reader@,
            progs: prog_models(self.prog_readers),
            cursor: self.cur_reader,
            frames: frame_models(self.frames@),
            stack: self.func_stack@,
            log: self.trace_log@,
            times: self.time_base@,
            clock: self.clock,
            epoch: self.init_time,
        }
    }
}

/// Puts `r` into `readers` after the last image that starts at or before
/// it.
fn insert_reader(readers: &mut Vec<ElfReader>, r: ElfReader)
    ensures
        image_models(final(readers)@) == insert_image(image_models(old(readers)@), r@),
{
    let ghost before = image_models(readers@);
    let mut pos: usize = readers.len();
    assert(before.take(before.len() as int) == before);
    while pos > 0 && readers[pos - 1].start > r.start
        invariant
            pos <= readers.len(),
            before == image_models(readers@),
            image_rank(before, r.start) == image_rank(before.take(pos as int), r.start),
        decreases pos,
    {
        proof {
            let front = before.take(pos as int);
            assert(front.last() == readers@[pos - 1]@);
            assert(front.drop_last() == before.take(pos - 1));
        }
        pos = pos - 1;
    }
    proof {
        let front = before.take(pos as int);
        if pos > 0 {
            assert(front.last() == readers@[pos - 1]@);
        }
        assert(image_rank(before, r.start) == pos);
    }
    readers.insert(pos, r);
    assert(image_models(readers@) =~= before.insert(pos as int, r@));
}

/// Sorts the images by start address and numbers them from 1.
fn arrange_readers(readers: Vec<ElfReader>) -> (out: Vec<ElfReader>)
    requires
        readers@.len() < u32::MAX,
    ensures
        image_models(out@) == arranged(image_models(readers@)),
{
    let ghost given = image_models(readers@);
    let mut out: Vec<ElfReader> = Vec::new();
    for r in it: readers
        invariant
            it.seq() == readers@,
            given == image_models(readers@),
            image_models(out@) == sorted_images(given.take(it.index() as int)),
    {
        proof {
            let i = it.index() as int;
            assert(given.take(i + 1).drop_last() == given.take(i));
            assert(given.take(i + 1).last() == r@);
        }
        insert_reader(&mut out, r);
    }
    proof {
        assert(given.take(given.len() as int) == given);
        lemma_sorted_images(given);
    }
    let ghost sorted = image_models(out@);
    let n: usize = out.len();
    let mut k: usize = 0;
    while k < n
        invariant
            k <= n,
            n == out@.len(),
            n < u32::MAX,
            sorted.len() == n,
            forall|j: int| 0 <= j < k ==> (#[trigger] out@[j])@ == numbered_images(sorted)[j],
            forall|j: int| k <= j < n ==> (#[trigger] out@[j])@ == sorted[j],
        decreases n - k,
    {
        out[k].id = (k + 1) as u32;
        k = k + 1;
    }
    assert(image_models(out@) =~= numbered_images(sorted));
    out
}

/// A file that cannot be parsed, after a run of files that can, gives the
/// fault of the whole list.
proof fn lemma_parse_fault_stays(files: Seq<FileModel>, i: int)
    requires
        0 <= i < files.len(),
        parsed_images(files.take(i)) is Ok,
        parsed_image(0, files[i].name, files[i].data) is Err,
    ensures
        parsed_images(files) == Err::<Seq<ImageModel>, BuildError>(
            BuildError::Prog(i as usize, parsed_image(0, files[i].name, files[i].data)->Err_0),
        ),
    decreases files.len(),
{
    let front = files.drop_last();
    if i == files.len() - 1 {
        assert(front == files.take(i));
    } else {
        assert(front.take(i) == files.take(i));
        lemma_parse_fault_stays(front, i);
    }
}

/// At most one stack position is the target of a return.
proof fn lemma_target_unique(m: TracerModel, pc: u64, i: int, j: int)
    requires
        m.is_target(pc, i),
        m.is_target(pc, j),
    ensures
        i == j,
{
    if i < j {
        assert(!m.holds_at(pc, i));
    } else if j < i {
        assert(!m.holds_at(pc, j));
    }
}

impl Manager {
    /// The tracer satisfies its invariant.
    pub open spec fn wf(&self) -> bool {
        self@.inv()
    }

    /// The clock reading, in milliseconds since the Unix epoch, from which
    /// the tracer's time counts.
    pub open spec fn epoch(&self) -> u64 {
        self@.epoch
    }

    /// Whether the images overlap: some auxiliary image, taken in the order
    /// given, reaches past the start of the next, or the start of the main
    /// image lies in an auxiliary image, or the start of an auxiliary image
    /// lies in the main image.
    #[verifier::loop_isolation(false)]
    pub fn check_reader_overlap(main_readers: &ElfReader, readers: Option<Vec<&ElfReader>>) -> (res:
        bool)
        ensures
            res == match readers {
                Some(v) => images_overlap(main_readers@, image_ref_models(v@)),
                None => false,
            },
    {
        match readers {
            None => false,
            Some(x) => {
                let ghost ps = image_ref_models(x@);
                let n: usize = x.len();
                let mut i: usize = 0;
                while i < n
                    invariant
                        i <= n,
                        n == x@.len(),
                        ps == image_ref_models(x@),
                        forall|a: int, b: int|
                            0 <= a && b == a + 1 && b < n && a < i ==> !((#[trigger] ps[a]).end > (
                            #[trigger] ps[b]).start),
                        forall|a: int|
                            0 <= a < i ==> !ranges_overlap(main_readers@, #[trigger] ps[a]),
                    decreases n - i,
                {
                    let item = x[i];
                    assert(ps[i as int] == item@);
                    if i + 1 < n {
                        let next = x[i + 1];
                        assert(ps[i + 1] == next@);
                        if item.end > next.start {
                            assert(ps[i as int].end > ps[i + 1].start);
                            return true;
                        }
                    }
                    if (main_readers.start >= item.start && main_readers.start < item.end) || (
                    item.start >= main_readers.start && item.start < main_readers.end) {
                        assert(ranges_overlap(main_readers@, ps[i as int]));
                        return true;
                    }
                    i = i + 1;
                }
                false
            },
        }
    }

    /// A tracer on the given images, with no event seen yet. The main image
    /// gets the id 0; the auxiliary images are sorted by start address and
    /// get the ids 1, 2, ... in that order. Images that do not satisfy the
    /// invariant of an image, or that overlap, are refused. The tracer's
    /// time counts from `init_time`, a reading of the clock in milliseconds
    /// since the Unix epoch.
    #[verifier::loop_isolation(false)]
    pub fn from_readers(
        show_context: bool,
        main_reader: ElfReader,
        prog_readers: Option<Vec<ElfReader>>,
        init_time: u64,
    ) -> (built: Result<Manager, BuildError>)
        ensures
            match built {
                Ok(m) => {
                    &&& tracer_on(show_context, main_reader@, prog_models(prog_readers)) is Ok
                    &&& m@ == tracer_on(
                        show_context,
                        main_reader@,
                        prog_models(prog_readers),
                    )->Ok_0.with_epoch(init_time)
                    &&& m.epoch() == init_time
                    &&& m.wf()
                },
                Err(e) => tracer_on(show_context, main_reader@, prog_models(prog_readers)) == Err::<
                    TracerModel,
                    BuildError,
                >(e),
            },
    {
        if !main_reader.check() {
            return Err(BuildError::Malformed);
        }
        let ghost main_model = main_reader@;
        let mut main = main_reader;
        main.id = 0;
        assert(main@ == with_id(main_model, 0));
        let progs: Option<Vec<ElfReader>> = match prog_readers {
            None => None,
            Some(readers) => {
                let ghost ps = image_models(readers@);
                let n: usize = readers.len();
                let mut i: usize = 0;
                while i < n
                    invariant
                        i <= n,
                        n == readers@.len(),
                        ps == image_models(readers@),
                        forall|k: int| 0 <= k < i ==> (#[trigger] ps[k]).wf(),
                    decreases n - i,
                {
                    assert(ps[i as int] == readers@[i as int]@);
                    if !readers[i].check() {
                        assert(!ps[i as int].wf());
                        return Err(BuildError::Malformed);
                    }
                    i = i + 1;
                }
                if n >= u32::MAX as usize {
                    return Err(BuildError::TooManyImages);
                }
                let out = arrange_readers(readers);
                let mut refs: Vec<&ElfReader> = Vec::new();
                let mut k: usize = 0;
                while k < out.len()
                    invariant
                        k <= out@.len(),
                        refs@.len() == k,
                        forall|j: int| 0 <= j < k ==> *(#[trigger] refs@[j]) == out@[j],
                    decreases out@.len() - k,
                {
                    refs.push(&out[k]);
                    k = k + 1;
                }
                assert(image_ref_models(refs@) =~= image_models(out@));
                proof {
                    let a = arranged(ps);
                    assert forall|i: int| 0 <= i < a.len() implies ranges_overlap(
                        main_model,
                        #[trigger] a[i],
                    ) == ranges_overlap(main@, a[i]) by {}
                    assert(images_overlap(main_model, a) == images_overlap(main@, a));
                }
                if Self::check_reader_overlap(&main, Some(refs)) {
                    return Err(BuildError::Overlap);
                }
                Some(out)
            },
        };
        let m = Manager {
            show_context,
            main_reader: main,
            cur_reader: CurReader::MainReader,
            prog_readers: progs,
            frames: Vec::new(),
            trace_log: Vec::new(),
            time_base: Vec::new(),
            func_stack: Vec::new(),
            init_time,
            clock: 0,
        };
        proof {
            lemma_initial_inv(show_context, main_model, prog_models(prog_readers), init_time);
            assert(m@.frames =~= Seq::<FrameModel>::empty());
            assert(m@ == initial(show_context, main_model, prog_models(prog_readers)).with_epoch(
                init_time,
            ));
        }
        Ok(m)
    }

    /// A tracer on the images of the given ELF files, with no event seen
    /// yet. Its time counts from a reading of the clock made here, which
    /// the contract leaves open.
    #[verifier::loop_isolation(false)]
    pub fn new(show_context: bool, main: &ImageFile, progs: Option<&Vec<ImageFile>>) -> (built:
        Result<Manager, BuildError>)
        ensures
            match built {
                Ok(m) => {
                    &&& tracer_of(show_context, main@, prog_file_models(progs)) is Ok
                    &&& m@ == tracer_of(
                        show_context,
                        main@,
                        prog_file_models(progs),
                    )->Ok_0.with_epoch(m.epoch())
                    &&& m.wf()
                },
                Err(e) => tracer_of(show_context, main@, prog_file_models(progs)) == Err::<
                    TracerModel,
                    BuildError,
                >(e),
            },
    {
        let main_reader = match ElfReader::new(0, main.name.as_str(), main.data.as_slice()) {
            Ok(image) => image,
            Err(e) => {
                return Err(BuildError::Main(e));
            },
        };
        let prog_readers: Option<Vec<ElfReader>> = match progs {
            None => None,
            Some(files) => {
                let ghost given = file_models(files@);
                let mut readers: Vec<ElfReader> = Vec::new();
                let n: usize = files.len();
                let mut i: usize = 0;
                assert(image_models(readers@) =~= Seq::<ImageModel>::empty());
                assert(given.take(0).len() == 0);
                while i < n
                    invariant
                        i <= n,
                        n == files@.len(),
                        given == file_models(files@),
                        parsed_images(given.take(i as int)) == Ok::<Seq<ImageModel>, BuildError>(
                            image_models(readers@),
                        ),
                    decreases n - i,
                {
                    let file = &files[i];
                    proof {
                        assert(given.take(i + 1).drop_last() == given.take(i as int));
                        assert(given.take(i + 1).last() == file@);
                    }
                    match ElfReader::new(0, file.name.as_str(), file.data.as_slice()) {
                        Ok(image) => {
                            let ghost before = image_models(readers@);
                            readers.push(image);
                            assert(image_models(readers@) =~= before.push(image@));
                        },
                        Err(e) => {
                            proof {
                                lemma_parse_fault_stays(given, i as int);
                            }
                            return Err(BuildError::Prog(i, e));
                        },
                    }
                    i = i + 1;
                }
                assert(given.take(n as int) == given);
                Some(readers)
            },
        };
        let init_time: u64 = unix_millis();
        Self::from_readers(show_context, main_reader, prog_readers, init_time)
    }

    /// The tracer's time at the clock reading `now`, which is in
    /// milliseconds since the Unix epoch: the milliseconds that `now` is
    /// past the tracer's epoch, and 0 for a reading before it.
    pub fn time_at(&self, now: u64) -> (t: u64)
        ensures
            t == self@.since(now),
            now >= self.epoch() ==> t == now - self.epoch(),
    {
        if now >= self.init_time {
            now - self.init_time
        } else {
            0
        }
    }

    /// The tracer's time at present: [`Manager::time_at`] of a reading of
    /// the wall clock. Which reading that is, is the clock's to say.
    pub fn get_time(&self) -> (t: u64)
        ensures
            exists|now: u64| t == #[trigger] self@.since(now),
    {
        let now: u64 = unix_millis();
        self.time_at(now)
    }

    /// The image that `reader` names.
    pub fn get_reader(&self, reader: &CurReader) -> (image: &ElfReader)
        requires
            self@.reader_ok(*reader),
        ensures
            image@ == self@.image(*reader),
    {
        match *reader {
            CurReader::MainReader => &self.main_reader,
            CurReader::ProgReaders(x) => {
                match &self.prog_readers {
                    Some(readers) => &readers[x],
                    None => &self.main_reader,
                }
            },
        }
    }

    /// The image under the cursor.
    pub fn cur_reader(&self) -> (image: &ElfReader)
        requires
            self.wf(),
        ensures
            image@ == self@.image(self@.cursor),
    {
        self.get_reader(&self.cur_reader)
    }

    /// The image that the frame was resolved in, if any.
    pub fn func_reader(&self, func: &FuncInstance) -> (image: Option<&ElfReader>)
        requires
            func@.reader is Some ==> self@.reader_ok(func@.reader.unwrap()),
        ensures
            match image {
                Some(r) => func@.reader is Some && r@ == self@.image(func@.reader.unwrap()),
                None => func@.reader is None,
            },
    {
        match &func.reader {
            Some(reader) => Some(self.get_reader(reader)),
            None => None,
        }
    }

    /// The record that a local frame was resolved to. Nothing for an
    /// external frame, or where the frame's image has no record under the
    /// frame's id.
    pub fn get_func_from_ins(&self, func_ins: &FuncInstance) -> (record: Option<&Func>)
        requires
            func_ins@.reader is Some ==> self@.reader_ok(func_ins@.reader.unwrap()),
        ensures
            match record {
                Some(f) => {
                    &&& !func_ins@.is_external()
                    &&& func_ins@.reader is Some
                    &&& self@.image(func_ins@.reader.unwrap()).record(func_ins@.id) == Some(f@)
                },
                None => {
                    ||| func_ins@.is_external()
                    ||| func_ins@.reader is None
                    ||| self@.image(func_ins@.reader.unwrap()).record(func_ins@.id) is None
                },
            },
    {
        if func_ins.func_type == FunType::ExternalFunc {
            return None;
        }
        match self.func_reader(func_ins) {
            Some(reader) => reader.get_func(func_ins.id),
            None => None,
        }
    }

    /// The time stamp of entry `idx` of the log.
    pub fn get_time_from_index(&self, idx: usize) -> (t: u64)
        requires
            idx < self@.times.len(),
        ensures
            t == self@.times[idx as int],
    {
        self.time_base[idx]
    }

    /// The time stamp of the last entry of the log, or 0 for an empty log.
    pub fn get_time_base_end(&self) -> (t: u64)
        ensures
            t == if self@.times.len() > 0 {
                self@.times.last()
            } else {
                0
            },
    {
        if self.time_base.len() > 0 {
            self.time_base[self.time_base.len() - 1]
        } else {
            0
        }
    }

    /// The shadow stack, bottom first: the positions of its frames.
    pub fn func_stack(&self) -> (stack: &Vec<usize>)
        ensures
            stack@ == self@.stack,
    {
        &self.func_stack
    }

    /// The trace log, oldest entry first: the positions of its frames.
    pub fn trace_log(&self) -> (log: &Vec<usize>)
        ensures
            log@ == self@.log,
    {
        &self.trace_log
    }

    /// The frame at the given position, if there is one.
    pub fn frame(&self, handle: usize) -> (frame: Option<&FuncInstance>)
        ensures
            match frame {
                Some(f) => handle < self@.frames.len() && f@ == self@.frames[handle as int],
                None => handle >= self@.frames.len(),
            },
    {
        if handle < self.frames.len() {
            Some(&self.frames[handle])
        } else {
            None
        }
    }

    /// Whether `pc` counts as inside the frame.
    pub fn check_bound(&self, func_ins: &FuncInstance, pc: u64) -> (inside: bool)
        requires
            self.wf(),
            self@.frame_ok(func_ins@),
        ensures
            inside == self@.in_bounds(func_ins@, pc),
    {
        match self.func_reader(func_ins) {
            Some(reader) => {
                assert(reader@.wf()) by {
                    match func_ins@.reader.unwrap() {
                        CurReader::MainReader => {},
                        CurReader::ProgReaders(k) => {
                            assert(self@.progs.unwrap()[k as int].wf());
                        },
                    }
                }
                if func_ins.func_type == FunType::LocalFunc {
                    let id: usize = func_ins.id as usize;
                    let func = &reader.func_vec[id];
                    assert(reader@.records[id as int] == func@);
                    (pc >= func.start) && (pc < func.end)
                } else {
                    let upper_bound: u64 = reader.start;
                    let lower_bound: u64 = if reader.func_vec.len() > 1 {
                        assert(reader@.records[1] == reader.func_vec@[1]@);
                        reader.func_vec[1].start
                    } else {
                        reader.end
                    };
                    (pc >= upper_bound) && (pc < lower_bound)
                }
            },
            None => false,
        }
    }

    /// The name under which the tracer knows `reader`: the main image for
    /// the id 0, else the auxiliary image at the position one below the id.
    /// The image of that name must agree with `reader` in id, range and
    /// name.
    pub fn elfreader_to_curreader(&self, reader: &ElfReader) -> (r: CurReader)
        requires
            self@.reader_ok(self@.named(reader@.id)),
            self@.image(self@.named(reader@.id)).id == reader@.id,
            self@.image(self@.named(reader@.id)).start == reader@.start,
            self@.image(self@.named(reader@.id)).end == reader@.end,
            self@.image(self@.named(reader@.id)).name == reader@.name,
        ensures
            r == self@.named(reader@.id),
    {
        if reader.id == 0 {
            CurReader::MainReader
        } else {
            CurReader::ProgReaders((reader.id - 1) as usize)
        }
    }

    /// The image that `pc` belongs to: the one under the cursor if it
    /// contains `pc`, else the main image if it does, else the first
    /// auxiliary image that does, else none.
    #[verifier::loop_isolation(false)]
    pub fn locate(&self, pc: u64) -> (found: Option<CurReader>)
        requires
            self.wf(),
        ensures
            found == self@.locate(pc),
    {
        if self.cur_reader().contains(pc) {
            return Some(self.cur_reader);
        }
        if self.main_reader.contains(pc) {
            return Some(CurReader::MainReader);
        }
        match &self.prog_readers {
            None => {
                assert forall|k: int| !self@.first_prog(pc, k) by {}
                None
            },
            Some(readers) => {
                let n: usize = readers.len();
                let mut k: usize = 0;
                while k < n
                    invariant
                        k <= n,
                        n == readers@.len(),
                        self@.progs == Some(image_models(readers@)),
                        forall|j: int|
                            0 <= j < k ==> !(#[trigger] self@.progs.unwrap()[j]).contains(pc),
                    decreases n - k,
                {
                    assert(self@.progs.unwrap()[k as int] == readers@[k as int]@);
                    if readers[k].contains(pc) {
                        proof {
                            assert(self@.first_prog(pc, k as int));
                            let c = choose|c: int| self@.first_prog(pc, c);
                            if c < k {
                                assert(!self@.progs.unwrap()[c].contains(pc));
                            } else if k < c {
                                assert(!self@.progs.unwrap()[k as int].contains(pc));
                            }
                        }
                        return Some(CurReader::ProgReaders(k));
                    }
                    k = k + 1;
                }
                assert forall|c: int| !self@.first_prog(pc, c) by {
                    if self@.first_prog(pc, c) {
                        assert(!self@.progs.unwrap()[c].contains(pc));
                    }
                }
                None
            },
        }
    }

    /// Moves the clock to `t` and the cursor to `r`.
    fn advance(&mut self, t: u64, r: CurReader)
        ensures
            final(self)@ == (TracerModel { clock: t, cursor: r, ..old(self)@ }),
    {
        self.clock = t;
        self.cur_reader = r;
    }

    /// Appends an entry to the log, with its time stamp.
    fn trace_log_push(&mut self, handle: usize, t: u64)
        ensures
            final(self)@ == (TracerModel {
                log: old(self)@.log.push(handle),
                times: old(self)@.times.push(t),
                ..old(self)@
            }),
    {
        self.trace_log.push(handle);
        self.time_base.push(t);
    }

    /// Stores a new frame and gives its position.
    fn keep_frame(&mut self, f: FuncInstance) -> (handle: usize)
        ensures
            handle == old(self)@.fresh(),
            old(self)@.frames.len() < usize::MAX,
            final(self)@ == (TracerModel { frames: old(self)@.frames.push(f@), ..old(self)@ }),
    {
        let handle: usize = self.frames.len();
        self.frames.push(f);
        assert(self.frames@.len() == self.frames.len());
        assert(frame_models(self.frames@) =~= frame_models(old(self).frames@).push(f@));
        handle
    }

    /// Pushes a new frame onto the stack and into the log.
    fn push_frame(&mut self, f: FuncInstance, t: u64)
        ensures
            old(self)@.frames.len() < usize::MAX,
            final(self)@ == old(self)@.pushed(f@, t),
    {
        let handle: usize = self.keep_frame(f);
        self.trace_log_push(handle, t);
        self.func_stack.push(handle);
    }

    /// Offers an anonymous frame: it enters the log unless the log ends in
    /// an external frame, and the stack unless the stack ends in one.
    fn push_anonymous(&mut self, f: FuncInstance, t: u64)
        requires
            old(self)@.handles_ok(),
        ensures
            final(self)@ == old(self)@.pushed_anonymous(f@, t),
            final(self)@.frames.len() <= usize::MAX,
    {
        let to_log: bool = self.trace_log.len() > 0 && self.frames[self.trace_log[
            self.trace_log.len() - 1]].func_type == FunType::LocalFunc;
        let to_stack: bool = self.func_stack.len() > 0 && self.frames[self.func_stack[
            self.func_stack.len() - 1]].func_type == FunType::LocalFunc;
        proof {
            if self.trace_log.len() > 0 {
                assert(self@.tail() == self.frames@[self.trace_log@.last() as int]@);
            }
            if self.func_stack.len() > 0 {
                assert(self@.top() == self.frames@[self.func_stack@.last() as int]@);
            }
        }
        if to_log || to_stack {
            let handle: usize = self.keep_frame(f);
            if to_log {
                self.trace_log_push(handle, t);
            }
            if to_stack {
                self.func_stack.push(handle);
            }
        }
    }

    /// The first call of all: the cursor goes to the main image, and the
    /// frame that `pc` resolves to there is pushed.
    fn first_add_function(&mut self, pc: u64, paras: Option<&Vec<u64>>, t: u64)
        requires
            old(self).wf(),
        ensures
            old(self)@.frames.len() < usize::MAX,
            final(self)@ == ({
                let first = TracerModel { clock: t, cursor: CurReader::MainReader, ..old(self)@ };
                first.pushed(
                    first.resolved(CurReader::MainReader, pc, paras_ref_model(paras), t),
                    t,
                )
            }),
    {
        let func_info = match self.main_reader.find(pc) {
            Some(x) => FuncInstance::new(x.id, x.func_type, CurReader::MainReader, t, paras),
            None => FuncInstance::new(0, FunType::ExternalFunc, CurReader::MainReader, t, paras),
        };
        self.advance(t, CurReader::MainReader);
        self.push_frame(func_info, t);
    }

    /// Pushes the frame for a call to `pc` in the image `cur_reader`, and
    /// moves the cursor there.
    fn build_ins_and_push(
        &mut self,
        cur_reader: CurReader,
        pc: u64,
        paras: Option<&Vec<u64>>,
        t: u64,
    )
        requires
            old(self).wf(),
            old(self)@.reader_ok(cur_reader),
        ensures
            final(self)@ == (TracerModel { clock: t, ..old(self)@ }).entered_image(
                cur_reader,
                pc,
                paras_ref_model(paras),
                t,
            ),
            final(self)@.frames.len() <= usize::MAX,
    {
        let reader = self.get_reader(&cur_reader);
        assert(reader@.wf()) by {
            match cur_reader {
                CurReader::MainReader => {},
                CurReader::ProgReaders(k) => {
                    assert(self@.progs.unwrap()[k as int].wf());
                },
            }
        }
        match reader.find(pc) {
            Some(named_func) => {
                assert(named_func@.func_type == FunType::LocalFunc);
                let func_ins = FuncInstance::new(
                    named_func.id,
                    named_func.func_type,
                    cur_reader,
                    t,
                    paras,
                );
                self.advance(t, cur_reader);
                self.push_frame(func_ins, t);
            },
            None => {
                let func_ins = FuncInstance::new(0, FunType::ExternalFunc, cur_reader, t, paras);
                self.advance(t, cur_reader);
                self.push_anonymous(func_ins, t);
            },
        }
    }

    /// A call that leaves the frame on top of the stack: the frame for `pc`
    /// is pushed in the image that `pc` belongs to, or as an anonymous frame
    /// without an image where it belongs to none.
    fn noram_add_function(&mut self, pc: u64, paras: Option<&Vec<u64>>, t: u64)
        requires
            old(self).wf(),
        ensures
            final(self)@ == ({
                let s = TracerModel { clock: t, ..old(self)@ };
                match old(self)@.locate(pc) {
                    Some(r) => s.entered_image(r, pc, paras_ref_model(paras), t),
                    None => s.pushed_anonymous(
                        FrameModel::entered_nowhere(0, t, paras_ref_model(paras)),
                        t,
                    ),
                }
            }),
            final(self)@.frames.len() <= usize::MAX,
    {
        proof {
            lemma_locate(self@, pc);
        }
        match self.locate(pc) {
            Some(reader_enum) => {
                self.build_ins_and_push(reader_enum, pc, paras, t);
            },
            None => {
                let func_ins = FuncInstance::new_with_nullreader(0, t, paras);
                let cursor = self.cur_reader;
                self.advance(t, cursor);
                self.push_anonymous(func_ins, t);
            },
        }
    }

    /// Records a call to `pc` at the clock reading `now`, with `paras` as
    /// the register snapshot.
    pub fn jmp_check_add_function_at(&mut self, pc: u64, paras: Option<&Vec<u64>>, now: u64)
        requires
            old(self).wf(),
        ensures
            final(self)@ == old(self)@.call(pc, paras_ref_model(paras), now),
            final(self).wf(),
    {
        let t: u64 = if now < self.clock {
            self.clock
        } else {
            now
        };
        let kept: Option<&Vec<u64>> = if self.show_context {
            paras
        } else {
            None
        };
        if self.trace_log.is_empty() {
            self.first_add_function(pc, kept, t);
        } else {
            let top: usize = self.func_stack[self.func_stack.len() - 1];
            assert(self@.top() == self.frames@[top as int]@);
            if !self.check_bound(&self.frames[top], pc) {
                self.noram_add_function(pc, kept, t);
            } else {
                let cursor = self.cur_reader;
                self.advance(t, cursor);
            }
        }
        proof {
            lemma_call_keeps_inv(old(self)@, pc, paras_ref_model(paras), now);
        }
    }

    /// Records a call to `pc` at the present time, with `paras` as the
    /// register snapshot. The state changes as by
    /// [`Manager::jmp_check_add_function_at`], for a clock reading that is
    /// the tracer's clock afterwards.
    pub fn jmp_check_add_function(&mut self, pc: u64, paras: Option<&Vec<u64>>)
        requires
            old(self).wf(),
        ensures
            final(self)@.clock >= old(self)@.clock,
            final(self)@ == old(self)@.call(pc, paras_ref_model(paras), final(self)@.clock),
            final(self).wf(),
    {
        let now: u64 = self.get_time();
        self.jmp_check_add_function_at(pc, paras, now);
    }

    /// Searches the stack from the bottom for the lowest frame that is not
    /// external and holds `pc`, and tells whether the stack has an external
    /// frame where there is no such frame.
    #[verifier::loop_isolation(false)]
    fn scan_stack(&self, pc: u64) -> (found: (Option<usize>, bool))
        requires
            self.wf(),
        ensures
            match found.0 {
                Some(i) => self@.return_target(pc) == Some(i as int),
                None => self@.return_target(pc) is None && found.1 == self@.has_external(),
            },
    {
        let n: usize = self.func_stack.len();
        let mut has_ext: bool = false;
        let mut i: usize = 0;
        while i < n
            invariant
                i <= n,
                forall|j: int| 0 <= j < i ==> !self@.holds_at(pc, j),
                has_ext <==> exists|j: int|
                    0 <= j < i && (#[trigger] self@.stack_frame(j)).is_external(),
            decreases n - i,
        {
            let handle: usize = self.func_stack[i];
            let item = &self.frames[handle];
            assert(self@.stack_frame(i as int) == item@);
            assert(self@.frame_ok(self@.frames[handle as int]));
            if item.func_type == FunType::ExternalFunc {
                has_ext = true;
            } else if self.check_bound(item, pc) {
                proof {
                    assert(self@.is_target(pc, i as int));
                    let c = choose|c: int| self@.is_target(pc, c);
                    lemma_target_unique(self@, pc, c, i as int);
                }
                return (Some(i), has_ext);
            }
            i = i + 1;
        }
        proof {
            assert forall|c: int| !self@.is_target(pc, c) by {
                if self@.is_target(pc, c) {
                    assert(self@.holds_at(pc, c));
                }
            }
        }
        (None, has_ext)
    }

    /// Why a return to `pc` cannot be traced, if that is so.
    pub fn return_fault(&self, pc: u64) -> (fault: Option<TraceFault>)
        requires
            self.wf(),
        ensures
            fault == self@.return_fault(pc),
    {
        if self.func_stack.len() == 0 {
            return Some(TraceFault::NoFrame);
        }
        let (target, has_ext) = self.scan_stack(pc);
        match target {
            Some(i) => if i == self.func_stack.len() - 1 {
                Some(TraceFault::ReturnToSelf)
            } else {
                None
            },
            None => if has_ext {
                None
            } else {
                Some(TraceFault::NoCaller)
            },
        }
    }

    /// Sets the exit time and the return registers of the frame at `handle`.
    fn close_frame(&mut self, handle: usize, t: u64, ret_val: Option<(u64, Option<u64>)>)
        requires
            handle < old(self)@.frames.len(),
        ensures
            final(self)@ == (TracerModel {
                frames: old(self)@.frames.update(
                    handle as int,
                    old(self)@.frames[handle as int].ended(t).returned(
                        ret_val,
                        old(self)@.show_context,
                    ),
                ),
                ..old(self)@
            }),
    {
        let show_context: bool = self.show_context;
        self.frames[handle].set_end_and_ret(t, ret_val, show_context);
        assert(frame_models(self.frames@) =~= frame_models(old(self).frames@).update(
            handle as int,
            old(self)@.frames[handle as int].ended(t).returned(ret_val, old(self)@.show_context),
        ));
    }

    /// Takes the top frame off the stack, sets its exit time and releases
    /// its register snapshot.
    fn pop_frame(&mut self, t: u64)
        requires
            old(self)@.stack.len() > 0,
            old(self)@.stack.last() < old(self)@.frames.len(),
        ensures
            final(self)@ == (TracerModel {
                frames: old(self)@.frames.update(
                    old(self)@.stack.last() as int,
                    old(self)@.frames[old(self)@.stack.last() as int].popped(t),
                ),
                stack: old(self)@.stack.drop_last(),
                ..old(self)@
            }),
    {
        let handle: usize = self.func_stack[self.func_stack.len() - 1];
        self.func_stack.pop();
        self.frames[handle].set_end_time(t);
        self.frames[handle].set_paras(None);
        assert(frame_models(self.frames@) =~= frame_models(old(self).frames@).update(
            handle as int,
            old(self)@.frames[handle as int].popped(t),
        ));
    }

    /// Records a return to `pc` at the clock reading `now`, with `ret_val`
    /// as the return registers.
    pub fn ret_pop_function_at(
        &mut self,
        pc: u64,
        ret_val: Option<(u64, Option<u64>)>,
        now: u64,
    )
        requires
            old(self).wf(),
            old(self)@.return_fault(pc) is None,
        ensures
            final(self)@ == old(self)@.ret(pc, ret_val, now),
            final(self).wf(),
    {
        let ghost m = self@;
        let (target, _has_ext) = self.scan_stack(pc);
        let t: u64 = if now < self.clock {
            self.clock
        } else {
            now
        };
        let cursor = self.cur_reader;
        self.advance(t, cursor);
        let top: usize = self.func_stack[self.func_stack.len() - 1];
        self.close_frame(top, t, ret_val);
        let ghost closed = self@.frames;
        match target {
            Some(idx) => {
                let handle: usize = self.func_stack[idx];
                while self.func_stack.len() > idx + 1
                    invariant
                        idx + 1 <= self@.stack.len() <= m.stack.len(),
                        m.inv(),
                        closed.len() == m.frames.len(),
                        self@.frames.len() == closed.len(),
                        self@.stack == m.stack.take(self@.stack.len() as int),
                        self@ == (TracerModel {
                            clock: t,
                            frames: self@.frames,
                            stack: self@.stack,
                            ..m
                        }),
                        forall|h: int|
                            0 <= h < closed.len() ==> (#[trigger] self@.frames[h]) == if m.above(
                                self@.stack.len() - 1,
                                h,
                            ) {
                                closed[h].popped(t)
                            } else {
                                closed[h]
                            },
                    decreases self@.stack.len(),
                {
                    let ghost before = self@;
                    let ghost k = self@.stack.len() - 1;
                    assert(before.stack[k] == m.stack[k]);
                    self.pop_frame(t);
                    proof {
                        let hk = m.stack[k] as int;
                        assert(self@.stack =~= m.stack.take(k));
                        assert(!m.above(k, hk)) by {
                            if m.above(k, hk) {
                                let j = choose|j: int|
                                    k < j < m.stack.len() && #[trigger] m.stack[j] == hk;
                                assert(m.stack[k] < m.stack[j]);
                            }
                        }
                        assert forall|h: int| 0 <= h < closed.len() implies (
                        #[trigger] self@.frames[h]) == if m.above(k - 1, h) {
                            closed[h].popped(t)
                        } else {
                            closed[h]
                        } by {
                            if h == hk {
                                assert(m.stack[k] == hk);
                                assert(m.above(k - 1, h));
                            } else {
                                assert(self@.frames[h] == before.frames[h]);
                                if m.above(k - 1, h) {
                                    let j = choose|j: int|
                                        k - 1 < j < m.stack.len() && #[trigger] m.stack[j] == h;
                                    assert(j != k);
                                    assert(m.above(k, h));
                                }
                                if m.above(k, h) {
                                    let j = choose|j: int|
                                        k < j < m.stack.len() && #[trigger] m.stack[j] == h;
                                    assert(m.above(k - 1, h));
                                }
                            }
                        }
                    }
                }
                self.trace_log_push(handle, t);
                proof {
                    let want = m.ret(pc, ret_val, now);
                    assert(self@.frames =~= want.frames);
                    assert(self@.stack =~= want.stack);
                    assert(self@ == want);
                }
            },
            None => {
                let tail: usize = self.trace_log[self.trace_log.len() - 1];
                assert(self@.tail() == self.frames@[tail as int]@);
                if self.frames[tail].func_type != FunType::ExternalFunc {
                    let func_ins = FuncInstance::new_with_nullreader(0, t, None);
                    let handle: usize = self.keep_frame(func_ins);
                    self.trace_log_push(handle, t);
                }
            },
        }
        proof {
            assert(self@.frames.len() == self.frames.len());
            lemma_ret_keeps_inv(m, pc, ret_val, now);
        }
    }

    /// Records a return to `pc` at the present time, with `ret_val` as the
    /// return registers. The state changes as by
    /// [`Manager::ret_pop_function_at`], for a clock reading that is the
    /// tracer's clock afterwards.
    pub fn ret_pop_function(&mut self, pc: u64, ret_val: Option<(u64, Option<u64>)>)
        requires
            old(self).wf(),
            old(self)@.return_fault(pc) is None,
        ensures
            final(self)@.clock >= old(self)@.clock,
            final(self)@ == old(self)@.ret(pc, ret_val, final(self)@.clock),
            final(self).wf(),
    {
        let now: u64 = self.get_time();
        self.ret_pop_function_at(pc, ret_val, now);
    }

    /// Records a return to `pc` at the present time if it can be traced, and
    /// says why not if it cannot; the tracer is then left as it was.
    pub fn try_ret_pop_function(&mut self, pc: u64, ret_val: Option<(u64, Option<u64>)>) -> (done:
        Result<(), TraceFault>)
        requires
            old(self).wf(),
        ensures
            final(self).wf(),
            match done {
                Ok(_) => {
                    &&& old(self)@.return_fault(pc) is None
                    &&& final(self)@.clock >= old(self)@.clock
                    &&& final(self)@ == old(self)@.ret(pc, ret_val, final(self)@.clock)
                },
                Err(e) => old(self)@.return_fault(pc) == Some(e) && final(self)@ == old(self)@,
            },
    {
        match self.return_fault(pc) {
            Some(e) => Err(e),
            None => {
                self.ret_pop_function(pc, ret_val);
                Ok(())
            },
        }
    }

    /// Traces the instruction `inst`, run at `pc` with the register file
    /// `regs`, at the clock reading `now`. A word that is neither `jal` nor
    /// `jalr` changes nothing. A return that cannot be traced changes
    /// nothing either, and the reason is handed back.
    pub fn check_instruction_at(&mut self, pc: u64, inst: u32, regs: &[u64], now: u64) -> (done:
        Result<(), TraceFault>)
        requires
            old(self).wf(),
            regs@.len() == 32,
        ensures
            final(self).wf(),
            final(self)@ == old(self)@.step(pc, inst, regs@, now),
            match done {
                Ok(_) => old(self)@.step_fault(pc, inst, regs@) is None,
                Err(e) => old(self)@.step_fault(pc, inst, regs@) == Some(e),
            },
    {
        match decode(pc, inst, regs) {
            None => Ok(()),
            Some(jump) => match jump.kind {
                JumpKind::Return => match self.return_fault(jump.target) {
                    Some(e) => Err(e),
                    None => {
                        self.ret_pop_function_at(
                            jump.target,
                            Some((regs[10], Some(regs[11]))),
                            now,
                        );
                        Ok(())
                    },
                },
                JumpKind::Call => {
                    let snapshot: Vec<u64> = slice_to_vec(regs);
                    self.jmp_check_add_function_at(jump.target, Some(&snapshot), now);
                    Ok(())
                },
            },
        }
    }

    /// Traces the instruction `inst`, run at `pc` with the register file
    /// `regs`, at the present time. The state changes as by
    /// [`Manager::check_instruction_at`], for a clock reading that is the
    /// tracer's clock afterwards where the clock has moved.
    pub fn check_instruction(&mut self, pc: u64, inst: u32, regs: &[u64]) -> (done: Result<
        (),
        TraceFault,
    >)
        requires
            old(self).wf(),
            regs@.len() == 32,
        ensures
            final(self).wf(),
            final(self)@.clock >= old(self)@.clock,
            final(self)@ == old(self)@.step(pc, inst, regs@, final(self)@.clock),
            match done {
                Ok(_) => old(self)@.step_fault(pc, inst, regs@) is None,
                Err(e) => old(self)@.step_fault(pc, inst, regs@) == Some(e),
            },
    {
        let now: u64 = self.get_time();
        self.check_instruction_at(pc, inst, regs, now)
    }

    /// The shadow stack as a dump shows it, top frame first: for each frame
    /// the record it was resolved to, or nothing for a frame that names no
    /// record.
    pub fn stack_dump(&self) -> (entries: Vec<Option<&Func>>)
        requires
            self.wf(),
        ensures
            entries@.len() == self@.stack.len(),
            forall|d: int|
                0 <= d < entries@.len() ==> (#[trigger] shown_models(entries@)[d]) == self@.shown(
                    self@.stack_frame(self@.stack.len() - 1 - d),
                ),
    {
        let n: usize = self.func_stack.len();
        let mut entries: Vec<Option<&Func>> = Vec::new();
        let mut d: usize = 0;
        while d < n
            invariant
                d <= n,
                n == self@.stack.len(),
                self.wf(),
                entries@.len() == d,
                forall|k: int|
                    0 <= k < d ==> (#[trigger] shown_models(entries@)[k]) == self@.shown(
                        self@.stack_frame(n - 1 - k),
                    ),
            decreases n - d,
        {
            let handle: usize = self.func_stack[n - 1 - d];
            let frame = &self.frames[handle];
            assert(self@.stack_frame(n - 1 - d) == frame@);
            assert(self@.frame_ok(self@.frames[handle as int]));
            let ghost before = shown_models(entries@);
            let entry = self.get_func_from_ins(frame);
            entries.push(entry);
            proof {
                assert forall|k: int| 0 <= k < d + 1 implies (#[trigger] shown_models(
                    entries@,
                )[k]) == self@.shown(self@.stack_frame(n - 1 - k)) by {
                    if k < d {
                        assert(shown_models(entries@)[k] == before[k]);
                    }
                }
            }
            d = d + 1;
        }
        entries
    }
}

} // verus!
