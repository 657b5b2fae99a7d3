//! The mathematical model of the call tracer: its state, the two events
//! that change it, and the invariant that they keep.

use crate::decode::{decoded, JumpKind};
use crate::elf_reader::{parsed_image, ElfError, FunType, FuncModel, ImageModel};
use crate::manager::{CurReader, FrameModel};
use vstd::prelude::*;

verus! {

/// Why a return cannot be traced.
#[derive(PartialEq, Eq, Clone, Copy, Debug, Structural)]
pub enum TraceFault {
    /// Nothing has been called yet.
    NoFrame,
    /// The frame returned to is the one on top of the stack.
    ReturnToSelf,
    /// No frame on the stack holds the target, and none of them is external.
    NoCaller,
}

/// Why a tracer could not be built.
#[derive(PartialEq, Eq, Clone, Copy, Debug, Structural)]
pub enum BuildError {
    /// The main image could not be built.
    Main(ElfError),
    /// The auxiliary image at the given position of the list could not be
    /// built.
    Prog(usize, ElfError),
    /// An image that was handed in does not satisfy the invariant of an
    /// image.
    Malformed,
    /// There are more auxiliary images than an image id can count.
    TooManyImages,
    /// Two images overlap.
    Overlap,
}

/// The state of a tracer. Frames live in `frames` and are known by their
/// position there; `stack` and `log` hold such positions, so that a frame on
/// the stack and its entries in the log are one and the same frame.
pub struct TracerModel {
    pub show_context: bool,
    pub main: ImageModel,
    pub progs: Option<Seq<ImageModel>>,
    pub cursor: CurReader,
    pub frames: Seq<FrameModel>,
    pub stack: Seq<usize>,
    pub log: Seq<usize>,
    pub times: Seq<u64>,
    pub clock: u64,
    pub epoch: u64,
}

/// Two images overlap: the start of one lies in the range of the other.
pub open spec fn ranges_overlap(a: ImageModel, b: ImageModel) -> bool {
    a.start <= b.start < a.end || b.start <= a.start < b.end
}

/// Some auxiliary image reaches past the start of the next one, or overlaps
/// the main image.
pub open spec fn images_overlap(main: ImageModel, progs: Seq<ImageModel>) -> bool {
    ||| exists|i: int, j: int|
        0 <= i && j == i + 1 && j < progs.len() && (#[trigger] progs[i]).end > (
        #[trigger] progs[j]).start
    ||| exists|i: int| 0 <= i < progs.len() && ranges_overlap(main, #[trigger] progs[i])
}

/// The images of a tracer are in order: the main image has id 0, the
/// auxiliary images have the ids 1, 2, ... in the order in which they stand,
/// each ends before the next begins, and none overlaps the main image.
pub open spec fn images_ok(main: ImageModel, progs: Option<Seq<ImageModel>>) -> bool {
    &&& main.wf()
    &&& main.id == 0
    &&& match progs {
        Some(ps) => {
            &&& ps.len() < u32::MAX
            &&& forall|k: int| 0 <= k < ps.len() ==> (#[trigger] ps[k]).wf() && ps[k].id == k + 1
            &&& forall|i: int, j: int| 0 <= i < j < ps.len() ==> ps[i].end <= ps[j].start
            &&& forall|k: int| 0 <= k < ps.len() ==> !ranges_overlap(main, #[trigger] ps[k])
        },
        None => true,
    }
}

/// The position just after the last image that starts at or before `key`.
pub open spec fn image_rank(images: Seq<ImageModel>, key: u64) -> int
    decreases images.len(),
{
    if images.len() == 0 {
        0
    } else if images.last().start <= key {
        images.len() as int
    } else {
        image_rank(images.drop_last(), key)
    }
}

/// `images` with `x` put in after the last image that starts at or before
/// it.
pub open spec fn insert_image(images: Seq<ImageModel>, x: ImageModel) -> Seq<ImageModel> {
    images.insert(image_rank(images, x.start), x)
}

/// The images in ascending order of start address, images with the same
/// start in the order in which they were given.
pub open spec fn sorted_images(images: Seq<ImageModel>) -> Seq<ImageModel>
    decreases images.len(),
{
    if images.len() == 0 {
        Seq::empty()
    } else {
        insert_image(sorted_images(images.drop_last()), images.last())
    }
}

/// `image` under another id.
pub open spec fn with_id(image: ImageModel, id: u32) -> ImageModel {
    ImageModel { id, ..image }
}

/// `images` with the ids 1, 2, ... in the order in which they stand.
pub open spec fn numbered_images(images: Seq<ImageModel>) -> Seq<ImageModel> {
    Seq::new(images.len(), |k: int| with_id(images[k], (k + 1) as u32))
}

/// The auxiliary images as a tracer holds them: sorted by start address and
/// numbered from 1.
pub open spec fn arranged(images: Seq<ImageModel>) -> Seq<ImageModel> {
    numbered_images(sorted_images(images))
}

/// Why no tracer can be built on the given images, if that is so.
pub open spec fn images_fault(main: ImageModel, progs: Option<Seq<ImageModel>>) -> Option<
    BuildError,
> {
    if !main.wf() {
        Some(BuildError::Malformed)
    } else {
        match progs {
            Some(ps) => if exists|k: int| 0 <= k < ps.len() && !(#[trigger] ps[k]).wf() {
                Some(BuildError::Malformed)
            } else if ps.len() >= u32::MAX {
                Some(BuildError::TooManyImages)
            } else if images_overlap(main, arranged(ps)) {
                Some(BuildError::Overlap)
            } else {
                None
            },
            None => None,
        }
    }
}

/// The name and the bytes of an ELF file, as sequences.
pub struct FileModel {
    pub name: Seq<char>,
    pub data: Seq<u8>,
}

/// The images of the given files, in order, or the fault of the first file
/// that has one.
pub open spec fn parsed_images(files: Seq<FileModel>) -> Result<Seq<ImageModel>, BuildError>
    decreases files.len(),
{
    if files.len() == 0 {
        Ok(Seq::empty())
    } else {
        match parsed_images(files.drop_last()) {
            Err(e) => Err(e),
            Ok(images) => match parsed_image(0, files.last().name, files.last().data) {
                Err(e) => Err(BuildError::Prog((files.len() - 1) as usize, e)),
                Ok(image) => Ok(images.push(image)),
            },
        }
    }
}

/// The tracer on the given images, with its time counted from 0, or why
/// there is none.
pub open spec fn tracer_on(show_context: bool, main: ImageModel, progs: Option<Seq<ImageModel>>)
    -> Result<TracerModel, BuildError> {
    match images_fault(main, progs) {
        Some(e) => Err(e),
        None => Ok(initial(show_context, main, progs)),
    }
}

/// The tracer on the given files, with its time counted from 0, or why
/// there is none: the fault of the main file comes first, then that of the
/// first auxiliary file that has one, then what is wrong with the images
/// together.
pub open spec fn tracer_of(show_context: bool, main: FileModel, progs: Option<Seq<FileModel>>)
    -> Result<TracerModel, BuildError> {
    match parsed_image(0, main.name, main.data) {
        Err(e) => Err(BuildError::Main(e)),
        Ok(main_image) => match progs {
            None => tracer_on(show_context, main_image, None),
            Some(files) => match parsed_images(files) {
                Err(e) => Err(e),
                Ok(images) => tracer_on(show_context, main_image, Some(images)),
            },
        },
    }
}

/// The state of a tracer that has seen no event yet, with its time counted
/// from 0.
pub open spec fn initial(show_context: bool, main: ImageModel, progs: Option<Seq<ImageModel>>)
    -> TracerModel {
    TracerModel {
        show_context,
        main: with_id(main, 0),
        progs: match progs {
            Some(ps) => Some(arranged(ps)),
            None => None,
        },
        cursor: CurReader::MainReader,
        frames: Seq::empty(),
        stack: Seq::empty(),
        log: Seq::empty(),
        times: Seq::empty(),
        clock: 0,
        epoch: 0,
    }
}

impl TracerModel {
    /// The same state, with its time counted from the clock reading
    /// `epoch`.
    pub open spec fn with_epoch(self, epoch: u64) -> TracerModel {
        TracerModel { epoch, ..self }
    }

    /// The tracer's time at the clock reading `now`: what `now` is past the
    /// epoch, and 0 for a reading before the epoch.
    pub open spec fn since(self, now: u64) -> u64 {
        if now >= self.epoch {
            (now - self.epoch) as u64
        } else {
            0
        }
    }

    /// `r` names an image that the tracer has.
    pub open spec fn reader_ok(self, r: CurReader) -> bool {
        match r {
            CurReader::MainReader => true,
            CurReader::ProgReaders(k) => self.progs is Some && k < self.progs.unwrap().len(),
        }
    }

    /// The image that `r` names.
    pub open spec fn image(self, r: CurReader) -> ImageModel {
        match r {
            CurReader::MainReader => self.main,
            CurReader::ProgReaders(k) => self.progs.unwrap()[k as int],
        }
    }

    /// The name of the image with the given id: the main image for the id
    /// 0, else the auxiliary image at the position one below the id.
    pub open spec fn named(self, id: u32) -> CurReader {
        if id == 0 {
            CurReader::MainReader
        } else {
            CurReader::ProgReaders((id - 1) as usize)
        }
    }

    /// The frame fits the tracer's images: a frame without an image is
    /// external, a local frame names a record of its image, an external one
    /// carries the id 0, and no frame ends before it starts.
    pub open spec fn frame_ok(self, f: FrameModel) -> bool {
        &&& f.start_time <= f.end_time
        &&& f.is_external() ==> f.id == 0
        &&& match f.reader {
            Some(r) => {
                &&& self.reader_ok(r)
                &&& !f.is_external() ==> f.id < self.image(r).records.len()
            },
            None => f.is_external(),
        }
    }

    /// `pc` counts as inside the frame. A local frame holds the range of its
    /// record. An external frame with an image holds what lies between the
    /// records on either side of its id: from the end of the record before
    /// (the start of the image if there is none) to the start of the record
    /// after (the end of the image if there is none). A frame without an
    /// image holds nothing.
    pub open spec fn in_bounds(self, f: FrameModel, pc: u64) -> bool {
        match f.reader {
            Some(r) => {
                let image = self.image(r);
                if f.is_external() {
                    let from = if f.id == 0 {
                        image.start
                    } else {
                        image.records[f.id - 1].end
                    };
                    let to = if f.id + 1 < image.records.len() {
                        image.records[f.id + 1].start
                    } else {
                        image.end
                    };
                    from <= pc < to
                } else {
                    image.records[f.id as int].covers(pc)
                }
            },
            None => false,
        }
    }

    /// Auxiliary image `k` is the first one that contains `pc`.
    pub open spec fn first_prog(self, pc: u64, k: int) -> bool {
        &&& self.progs is Some
        &&& 0 <= k < self.progs.unwrap().len()
        &&& self.progs.unwrap()[k].contains(pc)
        &&& forall|j: int| 0 <= j < k ==> !(#[trigger] self.progs.unwrap()[j]).contains(pc)
    }

    /// The image that `pc` belongs to: the one under the cursor if it
    /// contains `pc`, else the main image if it does, else the first
    /// auxiliary image that does, else none.
    pub open spec fn locate(self, pc: u64) -> Option<CurReader> {
        if self.image(self.cursor).contains(pc) {
            Some(self.cursor)
        } else if self.main.contains(pc) {
            Some(CurReader::MainReader)
        } else if exists|k: int| self.first_prog(pc, k) {
            Some(CurReader::ProgReaders((choose|k: int| self.first_prog(pc, k)) as usize))
        } else {
            None
        }
    }

    /// A reading of the clock, held back so that time never runs backwards.
    pub open spec fn tick(self, now: u64) -> u64 {
        if now < self.clock {
            self.clock
        } else {
            now
        }
    }

    /// The position that the next new frame gets.
    pub open spec fn fresh(self) -> usize {
        self.frames.len() as usize
    }

    /// The frame at position `i` of the stack, counted from the bottom.
    pub open spec fn stack_frame(self, i: int) -> FrameModel {
        self.frames[self.stack[i] as int]
    }

    /// The frame of entry `i` of the log.
    pub open spec fn log_frame(self, i: int) -> FrameModel {
        self.frames[self.log[i] as int]
    }

    /// The frame on top of the stack.
    pub open spec fn top(self) -> FrameModel {
        self.stack_frame(self.stack.len() - 1)
    }

    /// The frame at the end of the log.
    pub open spec fn tail(self) -> FrameModel {
        self.log_frame(self.log.len() - 1)
    }

    /// The frame for a call to `pc` in image `r`: local where a record holds
    /// `pc`, else external with id 0.
    pub open spec fn resolved(self, r: CurReader, pc: u64, paras: Option<Seq<u64>>, t: u64)
        -> FrameModel {
        match self.image(r).lookup(pc) {
            Some(record) => FrameModel::entered(record.id, record.func_type, r, t, paras),
            None => FrameModel::entered(0, FunType::ExternalFunc, r, t, paras),
        }
    }

    /// The state after a new frame has gone onto the stack and into the log.
    pub open spec fn pushed(self, f: FrameModel, t: u64) -> TracerModel {
        TracerModel {
            frames: self.frames.push(f),
            stack: self.stack.push(self.fresh()),
            log: self.log.push(self.fresh()),
            times: self.times.push(t),
            ..self
        }
    }

    /// The state after an anonymous frame has been offered: it goes into the
    /// log unless the log ends in an external frame, and onto the stack
    /// unless the stack ends in one.
    pub open spec fn pushed_anonymous(self, f: FrameModel, t: u64) -> TracerModel {
        let to_log = self.log.len() > 0 && !self.tail().is_external();
        let to_stack = self.stack.len() > 0 && !self.top().is_external();
        TracerModel {
            frames: if to_log || to_stack {
                self.frames.push(f)
            } else {
                self.frames
            },
            stack: if to_stack {
                self.stack.push(self.fresh())
            } else {
                self.stack
            },
            log: if to_log {
                self.log.push(self.fresh())
            } else {
                self.log
            },
            times: if to_log {
                self.times.push(t)
            } else {
                self.times
            },
            ..self
        }
    }

    /// The state after the frame for a call into image `r` has been pushed,
    /// with the cursor on `r`.
    pub open spec fn entered_image(self, r: CurReader, pc: u64, paras: Option<Seq<u64>>, t: u64)
        -> TracerModel {
        let moved = TracerModel { cursor: r, ..self };
        let f = moved.resolved(r, pc, paras, t);
        if f.is_external() {
            moved.pushed_anonymous(f, t)
        } else {
            moved.pushed(f, t)
        }
    }

    /// The register snapshot that a new frame keeps: the one handed in
    /// where the tracer keeps context, else none.
    pub open spec fn kept(self, paras: Option<Seq<u64>>) -> Option<Seq<u64>> {
        if self.show_context {
            paras
        } else {
            None
        }
    }

    /// The state after a call to `pc` at the clock reading `now`, with
    /// `paras` as the registers at the call.
    ///
    /// The first call of all puts the cursor on the main image and pushes
    /// the frame that `pc` resolves to there. Later, a call that lands inside
    /// the frame on top of the stack changes nothing. Any other call is
    /// resolved in the image that `pc` belongs to and pushed, anonymous
    /// frames only where they do not repeat one. A new frame keeps the
    /// registers only where the tracer keeps context.
    pub open spec fn call(self, pc: u64, paras: Option<Seq<u64>>, now: u64) -> TracerModel {
        let t = self.tick(now);
        let s = TracerModel { clock: t, ..self };
        let kept = self.kept(paras);
        if self.log.len() == 0 {
            let first = TracerModel { cursor: CurReader::MainReader, ..s };
            first.pushed(first.resolved(CurReader::MainReader, pc, kept, t), t)
        } else if self.in_bounds(self.top(), pc) {
            s
        } else {
            match self.locate(pc) {
                Some(r) => s.entered_image(r, pc, kept, t),
                None => s.pushed_anonymous(FrameModel::entered_nowhere(0, t, kept), t),
            }
        }
    }

    /// The frame at stack position `i` is not external and holds `pc`.
    pub open spec fn holds_at(self, pc: u64, i: int) -> bool {
        &&& 0 <= i < self.stack.len()
        &&& !self.stack_frame(i).is_external()
        &&& self.in_bounds(self.stack_frame(i), pc)
    }

    /// Stack position `i` is the lowest whose frame is not external and
    /// holds `pc`.
    pub open spec fn is_target(self, pc: u64, i: int) -> bool {
        &&& self.holds_at(pc, i)
        &&& forall|j: int| 0 <= j < i ==> !self.holds_at(pc, j)
    }

    /// The stack position that a return to `pc` unwinds to, if any.
    pub open spec fn return_target(self, pc: u64) -> Option<int> {
        if exists|i: int| self.is_target(pc, i) {
            Some(choose|i: int| self.is_target(pc, i))
        } else {
            None
        }
    }

    /// Some frame on the stack is external.
    pub open spec fn has_external(self) -> bool {
        exists|i: int| 0 <= i < self.stack.len() && (#[trigger] self.stack_frame(i)).is_external()
    }

    /// Why a return to `pc` cannot be traced, if that is so.
    pub open spec fn return_fault(self, pc: u64) -> Option<TraceFault> {
        if self.stack.len() == 0 {
            Some(TraceFault::NoFrame)
        } else {
            match self.return_target(pc) {
                Some(i) => if i == self.stack.len() - 1 {
                    Some(TraceFault::ReturnToSelf)
                } else {
                    None
                },
                None => if self.has_external() {
                    None
                } else {
                    Some(TraceFault::NoCaller)
                },
            }
        }
    }

    /// The frame with position `h` stands on the stack above position `i`.
    pub open spec fn above(self, i: int, h: int) -> bool {
        exists|j: int| i < j < self.stack.len() && #[trigger] self.stack[j] == h
    }

    /// The state after a return to `pc` at the clock reading `now`.
    ///
    /// The frame on top of the stack gets its exit time and, where context
    /// is kept, the return registers. If a frame lower down holds `pc`, all
    /// frames above the lowest such frame are popped, each with its exit
    /// time set and its register snapshot released, and the frame returned
    /// to enters the log once more. Otherwise the stack stays as it is and
    /// an anonymous frame enters the log, unless the log ends in one.
    pub open spec fn ret(self, pc: u64, ret_val: Option<(u64, Option<u64>)>, now: u64)
        -> TracerModel
        recommends
            self.return_fault(pc) is None,
    {
        let t = self.tick(now);
        let top = self.stack.last() as int;
        let closed = self.frames.update(
            top,
            self.frames[top].ended(t).returned(ret_val, self.show_context),
        );
        match self.return_target(pc) {
            Some(i) => TracerModel {
                clock: t,
                frames: Seq::new(
                    closed.len(),
                    |h: int|
                        if self.above(i, h) {
                            closed[h].popped(t)
                        } else {
                            closed[h]
                        },
                ),
                stack: self.stack.take(i + 1),
                log: self.log.push(self.stack[i]),
                times: self.times.push(t),
                ..self
            },
            None => {
                let s = TracerModel { clock: t, frames: closed, ..self };
                if !s.tail().is_external() {
                    TracerModel {
                        frames: s.frames.push(FrameModel::entered_nowhere(0, t, None)),
                        log: s.log.push(s.fresh()),
                        times: s.times.push(t),
                        ..s
                    }
                } else {
                    s
                }
            },
        }
    }

    /// Every frame fits the images and has ended by the time of the clock.
    pub open spec fn frames_ok(self) -> bool {
        forall|h: int|
            0 <= h < self.frames.len() ==> self.frame_ok(#[trigger] self.frames[h])
                && self.frames[h].end_time <= self.clock
    }

    /// The stack and the log hold positions of frames, the stack in rising
    /// order, and both are empty or neither is.
    pub open spec fn handles_ok(self) -> bool {
        &&& self.frames.len() <= usize::MAX
        &&& forall|i: int| 0 <= i < self.stack.len() ==> (#[trigger] self.stack[i]) < self.frames.len()
        &&& forall|i: int| 0 <= i < self.log.len() ==> (#[trigger] self.log[i]) < self.frames.len()
        &&& forall|i: int, j: int| 0 <= i < j < self.stack.len() ==> self.stack[i] < self.stack[j]
        &&& (self.stack.len() == 0 <==> self.log.len() == 0)
    }

    /// Every entry of the log has its time stamp, and the time stamps never
    /// fall and never pass the clock.
    pub open spec fn times_ok(self) -> bool {
        &&& self.log.len() == self.times.len()
        &&& forall|i: int, j: int| 0 <= i <= j < self.times.len() ==> self.times[i] <= self.times[j]
        &&& forall|i: int| 0 <= i < self.times.len() ==> (#[trigger] self.times[i]) <= self.clock
    }

    /// No two neighbours in the log are both external.
    pub open spec fn log_runs_ok(self) -> bool {
        forall|i: int, j: int|
            0 <= i && j == i + 1 && j < self.log.len() ==> !((#[trigger] self.log_frame(
                i,
            )).is_external() && (#[trigger] self.log_frame(j)).is_external())
    }

    /// No two neighbours on the stack are both external.
    pub open spec fn stack_runs_ok(self) -> bool {
        forall|i: int, j: int|
            0 <= i && j == i + 1 && j < self.stack.len() ==> !((#[trigger] self.stack_frame(
                i,
            )).is_external() && (#[trigger] self.stack_frame(j)).is_external())
    }

    /// Every frame on the stack that is not external has an entry in the
    /// log.
    pub open spec fn locals_logged(self) -> bool {
        forall|i: int|
            0 <= i < self.stack.len() && !(#[trigger] self.stack_frame(i)).is_external()
                ==> self.log.contains(self.stack[i])
    }

    /// The state after the instruction `inst` has run at `pc` with the
    /// register file `regs`, at the clock reading `now`: unchanged for a word
    /// that is no jump and for a return that cannot be traced; else after a
    /// call with the register file as snapshot, or after a return with the
    /// registers 10 and 11 as return registers.
    pub open spec fn step(self, pc: u64, inst: u32, regs: Seq<u64>, now: u64) -> TracerModel
        recommends
            regs.len() == 32,
    {
        match decoded(pc, inst, regs) {
            None => self,
            Some(jump) => match jump.kind {
                JumpKind::Call => self.call(jump.target, Some(regs), now),
                JumpKind::Return => if self.return_fault(jump.target) is Some {
                    self
                } else {
                    self.ret(jump.target, Some((regs[10], Some(regs[11]))), now)
                },
            },
        }
    }

    /// Why the instruction `inst`, run at `pc` with the register file
    /// `regs`, cannot be traced, if that is so: it is a return that cannot
    /// be traced.
    pub open spec fn step_fault(self, pc: u64, inst: u32, regs: Seq<u64>) -> Option<TraceFault>
        recommends
            regs.len() == 32,
    {
        match decoded(pc, inst, regs) {
            None => None,
            Some(jump) => match jump.kind {
                JumpKind::Call => None,
                JumpKind::Return => self.return_fault(jump.target),
            },
        }
    }

    /// The record that a frame shows in a dump of the stack: that of a local
    /// frame, as far as its image has it.
    pub open spec fn shown(self, f: FrameModel) -> Option<FuncModel> {
        if f.is_external() || f.reader is None {
            None
        } else {
            self.image(f.reader.unwrap()).record(f.id)
        }
    }

    /// The invariant of a tracer.
    pub open spec fn inv(self) -> bool {
        &&& images_ok(self.main, self.progs)
        &&& self.reader_ok(self.cursor)
        &&& self.frames_ok()
        &&& self.handles_ok()
        &&& self.times_ok()
        &&& self.log_runs_ok()
        &&& self.stack_runs_ok()
        &&& self.locals_logged()
    }

    /// Every frame on the stack has an entry in the log.
    pub open spec fn stack_in_log(self) -> bool {
        forall|i: int| 0 <= i < self.stack.len() ==> self.log.contains(#[trigger] self.stack[i])
    }
}


/// Moving the clock forward and the cursor to another image of the tracer
/// keeps the invariant, and changes nothing else.
pub proof fn lemma_advance_keeps_inv(m: TracerModel, t: u64, r: CurReader)
    requires
        m.inv(),
        m.clock <= t,
        m.reader_ok(r),
    ensures
        (TracerModel { clock: t, cursor: r, ..m }).inv(),
        m.stack_in_log() ==> (TracerModel { clock: t, cursor: r, ..m }).stack_in_log(),
{
    let s = TracerModel { clock: t, cursor: r, ..m };
    assert(s.frames_ok()) by {
        assert forall|h: int| 0 <= h < s.frames.len() implies s.frame_ok(#[trigger] s.frames[h])
            && s.frames[h].end_time <= s.clock by {
            assert(m.frame_ok(m.frames[h]));
        }
    }
    assert(s.log_runs_ok()) by {
        assert forall|i: int, j: int| 0 <= i && j == i + 1 && j < s.log.len() implies !((
        #[trigger] s.log_frame(i)).is_external() && (#[trigger] s.log_frame(j)).is_external()) by {
            assert(s.log_frame(i) == m.log_frame(i));
            assert(s.log_frame(j) == m.log_frame(j));
        }
    }
    assert(s.stack_runs_ok()) by {
        assert forall|i: int, j: int| 0 <= i && j == i + 1 && j < s.stack.len() implies !((
        #[trigger] s.stack_frame(i)).is_external() && (#[trigger] s.stack_frame(
            j,
        )).is_external()) by {
            assert(s.stack_frame(i) == m.stack_frame(i));
            assert(s.stack_frame(j) == m.stack_frame(j));
        }
    }
    assert(s.locals_logged()) by {
        assert forall|i: int|
            0 <= i < s.stack.len() && !(#[trigger] s.stack_frame(
                i,
            )).is_external() implies s.log.contains(s.stack[i]) by {
            assert(s.stack_frame(i) == m.stack_frame(i));
        }
    }
}


/// What holds of a state that a frame entered at time `t` is about to be
/// added to.
pub open spec fn ready_for(s: TracerModel, f: FrameModel, t: u64) -> bool {
    &&& s.inv()
    &&& s.frame_ok(f)
    &&& f.end_time <= s.clock
    &&& t <= s.clock
    &&& forall|i: int| 0 <= i < s.times.len() ==> (#[trigger] s.times[i]) <= t
}

/// Pushing a new frame onto the stack and into the log keeps the invariant,
/// provided the frame is local or the log is empty, and keeps every stacked
/// frame in the log where that held before.
pub proof fn lemma_pushed_keeps_inv(s: TracerModel, f: FrameModel, t: u64)
    requires
        ready_for(s, f, t),
        s.frames.len() < usize::MAX,
        !f.is_external() || s.log.len() == 0,
    ensures
        s.pushed(f, t).inv(),
        s.stack_in_log() ==> s.pushed(f, t).stack_in_log(),
{
    let p = s.pushed(f, t);
    let n = s.frames.len() as int;
    assert(p.frames[n] == f);
    assert(p.frames_ok()) by {
        assert forall|h: int| 0 <= h < p.frames.len() implies p.frame_ok(#[trigger] p.frames[h])
            && p.frames[h].end_time <= p.clock by {
            if h < n {
                assert(p.frames[h] == s.frames[h]);
                assert(s.frame_ok(s.frames[h]));
            }
        }
    }
    assert(p.handles_ok()) by {
        assert forall|i: int, j: int| 0 <= i < j < p.stack.len() implies p.stack[i]
            < p.stack[j] by {
            if j >= s.stack.len() {
                assert(p.stack[i] == s.stack[i]);
            }
        }
    }
    assert(p.times_ok()) by {
        assert forall|i: int, j: int| 0 <= i <= j < p.times.len() implies p.times[i]
            <= p.times[j] by {
            if j >= s.times.len() && i < s.times.len() {
                assert(p.times[i] == s.times[i]);
            }
        }
    }
    assert(p.log_runs_ok()) by {
        assert forall|i: int, j: int| 0 <= i && j == i + 1 && j < p.log.len() implies !((
        #[trigger] p.log_frame(i)).is_external() && (#[trigger] p.log_frame(j)).is_external()) by {
            assert(p.log_frame(i) == s.log_frame(i));
            if j < s.log.len() {
                assert(p.log_frame(j) == s.log_frame(j));
            } else {
                assert(p.log_frame(j) == f);
            }
        }
    }
    assert(p.stack_runs_ok()) by {
        assert forall|i: int, j: int| 0 <= i && j == i + 1 && j < p.stack.len() implies !((
        #[trigger] p.stack_frame(i)).is_external() && (#[trigger] p.stack_frame(
            j,
        )).is_external()) by {
            assert(p.stack_frame(i) == s.stack_frame(i));
            if j < s.stack.len() {
                assert(p.stack_frame(j) == s.stack_frame(j));
            } else {
                assert(p.stack_frame(j) == f);
            }
        }
    }
    assert forall|i: int| 0 <= i < p.stack.len() && (!(#[trigger] p.stack_frame(i)).is_external()
        || s.stack_in_log()) implies p.log.contains(p.stack[i]) by {
        if i < s.stack.len() {
            assert(p.stack_frame(i) == s.stack_frame(i));
            assert(s.log.contains(s.stack[i]));
            let k = choose|k: int| 0 <= k < s.log.len() && s.log[k] == s.stack[i];
            assert(p.log[k] == s.stack[i]);
        } else {
            assert(p.log[p.log.len() - 1] == p.stack[i]);
        }
    }
    assert(p.locals_logged());
    if s.stack_in_log() {
        assert forall|i: int| 0 <= i < p.stack.len() implies p.log.contains(
            #[trigger] p.stack[i],
        ) by {
            let g = p.stack_frame(i);
        }
    }
}

/// Offering an anonymous frame keeps the invariant.
pub proof fn lemma_pushed_anonymous_keeps_inv(s: TracerModel, f: FrameModel, t: u64)
    requires
        ready_for(s, f, t),
        s.pushed_anonymous(f, t).frames.len() <= usize::MAX,
        f.is_external(),
        s.log.len() > 0,
    ensures
        s.pushed_anonymous(f, t).inv(),
{
    let p = s.pushed_anonymous(f, t);
    let n = s.frames.len() as int;
    assert(p.frames_ok()) by {
        assert forall|h: int| 0 <= h < p.frames.len() implies p.frame_ok(#[trigger] p.frames[h])
            && p.frames[h].end_time <= p.clock by {
            if h < n {
                assert(p.frames[h] == s.frames[h]);
                assert(s.frame_ok(s.frames[h]));
            } else {
                assert(p.frames[h] == f);
            }
        }
    }
    assert(p.handles_ok()) by {
        assert forall|i: int, j: int| 0 <= i < j < p.stack.len() implies p.stack[i]
            < p.stack[j] by {
            if j >= s.stack.len() {
                assert(p.stack[i] == s.stack[i]);
            }
        }
    }
    assert(p.times_ok()) by {
        assert forall|i: int, j: int| 0 <= i <= j < p.times.len() implies p.times[i]
            <= p.times[j] by {
            if j >= s.times.len() && i < s.times.len() {
                assert(p.times[i] == s.times[i]);
            }
        }
    }
    assert(p.log_runs_ok()) by {
        assert forall|i: int, j: int| 0 <= i && j == i + 1 && j < p.log.len() implies !((
        #[trigger] p.log_frame(i)).is_external() && (#[trigger] p.log_frame(j)).is_external()) by {
            assert(p.log_frame(i) == s.log_frame(i));
            if j < s.log.len() {
                assert(p.log_frame(j) == s.log_frame(j));
            } else {
                assert(s.log_frame(i) == s.tail());
            }
        }
    }
    assert(p.stack_runs_ok()) by {
        assert forall|i: int, j: int| 0 <= i && j == i + 1 && j < p.stack.len() implies !((
        #[trigger] p.stack_frame(i)).is_external() && (#[trigger] p.stack_frame(
            j,
        )).is_external()) by {
            assert(p.stack_frame(i) == s.stack_frame(i));
            if j < s.stack.len() {
                assert(p.stack_frame(j) == s.stack_frame(j));
            } else {
                assert(s.stack_frame(i) == s.top());
            }
        }
    }
    assert(p.locals_logged()) by {
        assert forall|i: int|
            0 <= i < p.stack.len() && !(#[trigger] p.stack_frame(
                i,
            )).is_external() implies p.log.contains(p.stack[i]) by {
            if i < s.stack.len() {
                assert(p.stack_frame(i) == s.stack_frame(i));
                assert(s.log.contains(s.stack[i]));
                let k = choose|k: int| 0 <= k < s.log.len() && s.log[k] == s.stack[i];
                assert(p.log[k] == s.stack[i]);
            } else {
                assert(p.stack_frame(i) == f);
            }
        }
    }
}


/// The image that `locate` gives is one of the tracer's and contains `pc`;
/// where it gives none, no image contains `pc`.
pub proof fn lemma_locate(m: TracerModel, pc: u64)
    requires
        images_ok(m.main, m.progs),
        m.reader_ok(m.cursor),
    ensures
        match m.locate(pc) {
            Some(r) => m.reader_ok(r) && m.image(r).contains(pc),
            None => forall|r: CurReader| m.reader_ok(r) ==> !(#[trigger] m.image(r)).contains(pc),
        },
{
    if m.image(m.cursor).contains(pc) {
    } else if m.main.contains(pc) {
    } else if exists|k: int| m.first_prog(pc, k) {
        let k = choose|k: int| m.first_prog(pc, k);
        assert(m.first_prog(pc, k));
    } else {
        assert forall|r: CurReader| m.reader_ok(r) implies !(#[trigger] m.image(r)).contains(pc) by {
            match r {
                CurReader::MainReader => {},
                CurReader::ProgReaders(k) => {
                    if m.image(r).contains(pc) {
                        lemma_first_prog_exists(m, pc, k as int);
                    }
                },
            }
        }
    }
}

/// Where some auxiliary image contains `pc`, there is a first one that does.
pub proof fn lemma_first_prog_exists(m: TracerModel, pc: u64, k: int)
    requires
        m.progs is Some,
        0 <= k < m.progs.unwrap().len(),
        m.progs.unwrap()[k].contains(pc),
    ensures
        exists|j: int| m.first_prog(pc, j),
    decreases k,
{
    if exists|j: int| 0 <= j < k && (#[trigger] m.progs.unwrap()[j]).contains(pc) {
        let j = choose|j: int| 0 <= j < k && (#[trigger] m.progs.unwrap()[j]).contains(pc);
        lemma_first_prog_exists(m, pc, j);
    } else {
        assert(m.first_prog(pc, k));
    }
}

/// The frame that a call resolves to in an image of the tracer fits the
/// tracer, and is entered and left at the time of the call.
pub proof fn lemma_resolved(m: TracerModel, r: CurReader, pc: u64, paras: Option<Seq<u64>>, t: u64)
    requires
        images_ok(m.main, m.progs),
        m.reader_ok(r),
    ensures
        m.frame_ok(m.resolved(r, pc, paras, t)),
        m.resolved(r, pc, paras, t).start_time == t,
        m.resolved(r, pc, paras, t).end_time == t,
        m.resolved(r, pc, paras, t).reader == Some(r),
        !m.resolved(r, pc, paras, t).is_external() ==> m.image(r).hit(
            pc,
            m.resolved(r, pc, paras, t).id as int,
        ),
        m.resolved(r, pc, paras, t).is_external() <==> m.image(r).lookup(pc) is None,
{
    let image = m.image(r);
    assert(image.wf()) by {
        match r {
            CurReader::MainReader => {},
            CurReader::ProgReaders(k) => {
                assert(m.progs.unwrap()[k as int].wf());
            },
        }
    }
    if exists|k: int| image.hit(pc, k) {
        let k = choose|k: int| image.hit(pc, k);
        assert(image.records[k].id == k);
    }
}

/// A call keeps the invariant.
pub proof fn lemma_call_keeps_inv(m: TracerModel, pc: u64, paras: Option<Seq<u64>>, now: u64)
    requires
        m.inv(),
        m.call(pc, paras, now).frames.len() <= usize::MAX,
    ensures
        m.call(pc, paras, now).inv(),
        m.call(pc, paras, now).log.len() > 0,
{
    let t = m.tick(now);
    let s = TracerModel { clock: t, ..m };
    lemma_advance_keeps_inv(m, t, m.cursor);
    assert(s == TracerModel { clock: t, cursor: m.cursor, ..m });
    if m.log.len() == 0 {
        let first = TracerModel { cursor: CurReader::MainReader, ..s };
        lemma_advance_keeps_inv(m, t, CurReader::MainReader);
        assert(first == TracerModel { clock: t, cursor: CurReader::MainReader, ..m });
        let f = first.resolved(CurReader::MainReader, pc, m.kept(paras), t);
        lemma_resolved(first, CurReader::MainReader, pc, m.kept(paras), t);
        lemma_pushed_keeps_inv(first, f, t);
    } else if m.in_bounds(m.top(), pc) {
    } else {
        match m.locate(pc) {
            Some(r) => {
                lemma_locate(m, pc);
                let moved = TracerModel { cursor: r, ..s };
                lemma_advance_keeps_inv(m, t, r);
                assert(moved == TracerModel { clock: t, cursor: r, ..m });
                let f = moved.resolved(r, pc, m.kept(paras), t);
                lemma_resolved(moved, r, pc, m.kept(paras), t);
                if f.is_external() {
                    lemma_pushed_anonymous_keeps_inv(moved, f, t);
                } else {
                    lemma_pushed_keeps_inv(moved, f, t);
                }
            },
            None => {
                let f = FrameModel::entered_nowhere(0, t, m.kept(paras));
                lemma_pushed_anonymous_keeps_inv(s, f, t);
            },
        }
    }
}

/// The stack position that a return unwinds to holds `pc`, and is the
/// lowest that does.
pub proof fn lemma_return_target(m: TracerModel, pc: u64)
    ensures
        match m.return_target(pc) {
            Some(i) => m.is_target(pc, i),
            None => forall|i: int| !m.holds_at(pc, i),
        },
{
    if exists|i: int| m.is_target(pc, i) {
    } else {
        assert forall|i: int| !m.holds_at(pc, i) by {
            if m.holds_at(pc, i) {
                lemma_lowest_holder(m, pc, i);
            }
        }
    }
}

/// Where some stack position holds `pc`, there is a lowest one that does.
pub proof fn lemma_lowest_holder(m: TracerModel, pc: u64, i: int)
    requires
        m.holds_at(pc, i),
    ensures
        exists|k: int| m.is_target(pc, k),
    decreases i,
{
    if exists|j: int| 0 <= j < i && m.holds_at(pc, j) {
        let j = choose|j: int| 0 <= j < i && m.holds_at(pc, j);
        lemma_lowest_holder(m, pc, j);
    } else {
        assert(m.is_target(pc, i));
    }
}

/// A return that can be traced keeps the invariant, and keeps every stacked
/// frame in the log where that held before.
pub proof fn lemma_ret_keeps_inv(
    m: TracerModel,
    pc: u64,
    ret_val: Option<(u64, Option<u64>)>,
    now: u64,
)
    requires
        m.inv(),
        m.ret(pc, ret_val, now).frames.len() <= usize::MAX,
        m.return_fault(pc) is None,
    ensures
        m.ret(pc, ret_val, now).inv(),
        m.stack_in_log() ==> m.ret(pc, ret_val, now).stack_in_log(),
{
    let t = m.tick(now);
    let top = m.stack.last() as int;
    let closed = m.frames.update(top, m.frames[top].ended(t).returned(ret_val, m.show_context));
    let p = m.ret(pc, ret_val, now);
    lemma_return_target(m, pc);
    assert(m.frame_ok(m.frames[top]));
    assert forall|h: int| 0 <= h < closed.len() implies m.frame_ok(#[trigger] closed[h])
        && closed[h].end_time <= t && closed[h].func_type == m.frames[h].func_type by {
        assert(m.frame_ok(m.frames[h]));
    }
    match m.return_target(pc) {
        Some(i) => {
            assert(p.frames.len() == m.frames.len());
            assert forall|h: int| 0 <= h < p.frames.len() implies p.frame_ok(
                #[trigger] p.frames[h],
            ) && p.frames[h].end_time <= p.clock && p.frames[h].func_type
                == m.frames[h].func_type by {
                assert(m.frame_ok(closed[h]));
            }
            assert(p.frames_ok());
            assert(p.handles_ok());
            assert(p.times_ok()) by {
                assert forall|a: int, b: int| 0 <= a <= b < p.times.len() implies p.times[a]
                    <= p.times[b] by {
                    if b >= m.times.len() && a < m.times.len() {
                        assert(p.times[a] == m.times[a]);
                    }
                }
            }
            assert(p.log_frame(p.log.len() - 1).func_type == m.stack_frame(i).func_type);
            assert(p.log_runs_ok()) by {
                assert forall|a: int, b: int| 0 <= a && b == a + 1 && b < p.log.len() implies !((
                #[trigger] p.log_frame(a)).is_external() && (#[trigger] p.log_frame(
                    b,
                )).is_external()) by {
                    assert(p.log_frame(a).func_type == m.log_frame(a).func_type);
                    if b < m.log.len() {
                        assert(p.log_frame(b).func_type == m.log_frame(b).func_type);
                    }
                }
            }
            assert(p.stack_runs_ok()) by {
                assert forall|a: int, b: int|
                    0 <= a && b == a + 1 && b < p.stack.len() implies !((#[trigger] p.stack_frame(
                    a,
                )).is_external() && (#[trigger] p.stack_frame(b)).is_external()) by {
                    assert(p.stack_frame(a).func_type == m.stack_frame(a).func_type);
                    assert(p.stack_frame(b).func_type == m.stack_frame(b).func_type);
                }
            }
            assert forall|a: int| 0 <= a < p.stack.len() && (!(#[trigger] p.stack_frame(
                a,
            )).is_external() || m.stack_in_log()) implies p.log.contains(p.stack[a]) by {
                assert(p.stack_frame(a).func_type == m.stack_frame(a).func_type);
                assert(m.log.contains(m.stack[a]));
                let k = choose|k: int| 0 <= k < m.log.len() && m.log[k] == m.stack[a];
                assert(p.log[k] == m.stack[a]);
            }
            assert(p.locals_logged());
            if m.stack_in_log() {
                assert forall|a: int| 0 <= a < p.stack.len() implies p.log.contains(
                    #[trigger] p.stack[a],
                ) by {
                    let g = p.stack_frame(a);
                }
            }
        },
        None => {
            let s = TracerModel { clock: t, frames: closed, ..m };
            assert(s.frames_ok());
            assert(s.handles_ok());
            assert(s.times_ok());
            assert(s.log_runs_ok()) by {
                assert forall|a: int, b: int| 0 <= a && b == a + 1 && b < s.log.len() implies !((
                #[trigger] s.log_frame(a)).is_external() && (#[trigger] s.log_frame(
                    b,
                )).is_external()) by {
                    assert(s.log_frame(a).func_type == m.log_frame(a).func_type);
                    assert(s.log_frame(b).func_type == m.log_frame(b).func_type);
                }
            }
            assert(s.stack_runs_ok()) by {
                assert forall|a: int, b: int|
                    0 <= a && b == a + 1 && b < s.stack.len() implies !((#[trigger] s.stack_frame(
                    a,
                )).is_external() && (#[trigger] s.stack_frame(b)).is_external()) by {
                    assert(s.stack_frame(a).func_type == m.stack_frame(a).func_type);
                    assert(s.stack_frame(b).func_type == m.stack_frame(b).func_type);
                }
            }
            assert(s.locals_logged()) by {
                assert forall|a: int|
                    0 <= a < s.stack.len() && !(#[trigger] s.stack_frame(
                        a,
                    )).is_external() implies s.log.contains(s.stack[a]) by {
                    assert(s.stack_frame(a).func_type == m.stack_frame(a).func_type);
                }
            }
            assert(s.inv());
            if !s.tail().is_external() {
                let f = FrameModel::entered_nowhere(0, t, None);
                assert(p.frames == s.frames.push(f));
                assert(p.frames_ok()) by {
                    assert forall|h: int| 0 <= h < p.frames.len() implies p.frame_ok(
                        #[trigger] p.frames[h],
                    ) && p.frames[h].end_time <= p.clock by {
                        if h < s.frames.len() {
                            assert(s.frame_ok(s.frames[h]));
                        }
                    }
                }
                assert(p.handles_ok());
                assert(p.times_ok()) by {
                    assert forall|a: int, b: int| 0 <= a <= b < p.times.len() implies p.times[a]
                        <= p.times[b] by {
                        if b >= m.times.len() && a < m.times.len() {
                            assert(p.times[a] == m.times[a]);
                        }
                    }
                }
                assert(p.log_runs_ok()) by {
                    assert forall|a: int, b: int|
                        0 <= a && b == a + 1 && b < p.log.len() implies !((#[trigger] p.log_frame(
                        a,
                    )).is_external() && (#[trigger] p.log_frame(b)).is_external()) by {
                        assert(p.log_frame(a) == s.log_frame(a));
                        if b < s.log.len() {
                            assert(p.log_frame(b) == s.log_frame(b));
                        } else {
                            assert(s.log_frame(a) == s.tail());
                        }
                    }
                }
                assert(p.stack_runs_ok()) by {
                    assert forall|a: int, b: int|
                        0 <= a && b == a + 1 && b < p.stack.len() implies !((
                    #[trigger] p.stack_frame(a)).is_external() && (#[trigger] p.stack_frame(
                        b,
                    )).is_external()) by {
                        assert(p.stack_frame(a) == s.stack_frame(a));
                        assert(p.stack_frame(b) == s.stack_frame(b));
                    }
                }
                assert forall|a: int| 0 <= a < p.stack.len() && (!(#[trigger] p.stack_frame(
                    a,
                )).is_external() || m.stack_in_log()) implies p.log.contains(p.stack[a]) by {
                    assert(p.stack_frame(a).func_type == m.stack_frame(a).func_type);
                    assert(m.log.contains(m.stack[a]));
                    let k = choose|k: int| 0 <= k < m.log.len() && m.log[k] == m.stack[a];
                    assert(p.log[k] == m.stack[a]);
                }
                assert(p.locals_logged());
                if m.stack_in_log() {
                    assert forall|a: int| 0 <= a < p.stack.len() implies p.log.contains(
                        #[trigger] p.stack[a],
                    ) by {
                        let g = p.stack_frame(a);
                    }
                }
            } else {
                assert(p == s);
                if m.stack_in_log() {
                    assert forall|a: int| 0 <= a < p.stack.len() implies p.log.contains(
                        #[trigger] p.stack[a],
                    ) by {
                        assert(m.log.contains(m.stack[a]));
                    }
                }
            }
        },
    }
}


/// Everything from position `image_rank` on starts after `key`.
pub proof fn lemma_image_rank(images: Seq<ImageModel>, key: u64)
    ensures
        0 <= image_rank(images, key) <= images.len(),
    decreases images.len(),
{
    if images.len() > 0 && images.last().start > key {
        lemma_image_rank(images.drop_last(), key);
    }
}

/// Sorting keeps the number of images, and every image that comes out is
/// one that went in.
pub proof fn lemma_sorted_images(images: Seq<ImageModel>)
    ensures
        sorted_images(images).len() == images.len(),
        forall|k: int|
            0 <= k < images.len() ==> exists|j: int|
                0 <= j < images.len() && (#[trigger] sorted_images(images)[k]) == images[j],
    decreases images.len(),
{
    if images.len() > 0 {
        let front = images.drop_last();
        let rest = sorted_images(front);
        let x = images.last();
        lemma_sorted_images(front);
        lemma_image_rank(rest, x.start);
        let at = image_rank(rest, x.start);
        let out = sorted_images(images);
        assert forall|k: int| 0 <= k < images.len() implies exists|j: int|
            0 <= j < images.len() && (#[trigger] out[k]) == images[j] by {
            if k == at {
                assert(out[k] == images[images.len() - 1]);
            } else {
                let k0 = if k < at {
                    k
                } else {
                    k - 1
                };
                assert(out[k] == rest[k0]);
                let j = choose|j: int| 0 <= j < front.len() && rest[k0] == front[j];
                assert(out[k] == images[j]);
            }
        }
    }
}

/// Images that are well formed and of which none reaches past the start of
/// the next are separated: each ends before any later one begins.
pub proof fn lemma_adjacent_to_separated(images: Seq<ImageModel>, i: int, j: int)
    requires
        forall|k: int| 0 <= k < images.len() ==> (#[trigger] images[k]).start <= images[k].end,
        forall|a: int, b: int|
            0 <= a && b == a + 1 && b < images.len() ==> (#[trigger] images[a]).end <= (
            #[trigger] images[b]).start,
        0 <= i < j < images.len(),
    ensures
        images[i].end <= images[j].start,
    decreases j - i,
{
    if j > i + 1 {
        lemma_adjacent_to_separated(images, i, j - 1);
        assert(images[j - 1].start <= images[j - 1].end);
        assert(images[j - 1].end <= images[j].start);
    }
}

/// Where nothing is wrong with the images, the state built on them
/// satisfies the invariant.
pub proof fn lemma_initial_inv(
    show_context: bool,
    main: ImageModel,
    progs: Option<Seq<ImageModel>>,
    epoch: u64,
)
    requires
        images_fault(main, progs) is None,
    ensures
        initial(show_context, main, progs).with_epoch(epoch).inv(),
{
    let m = initial(show_context, main, progs).with_epoch(epoch);
    match progs {
        Some(ps) => {
            let sorted = sorted_images(ps);
            let out = arranged(ps);
            lemma_sorted_images(ps);
            assert forall|k: int| 0 <= k < out.len() implies (#[trigger] out[k]).wf() && out[k].id
                == k + 1 by {
                let j = choose|j: int| 0 <= j < ps.len() && sorted[k] == ps[j];
                assert(ps[j].wf());
            }
            assert forall|i: int, j: int| 0 <= i < j < out.len() implies out[i].end
                <= out[j].start by {
                lemma_adjacent_to_separated(out, i, j);
            }
        },
        None => {},
    }
}


/// In a tracer that satisfies its invariant, no address lies in the ranges
/// of two auxiliary images, none in the range of the main image and of an
/// auxiliary image, and the start of the main image lies in no auxiliary
/// image.
pub proof fn lemma_images_disjoint(m: TracerModel, pc: u64, i: int, j: int)
    requires
        m.inv(),
        m.progs is Some,
        0 <= i < m.progs.unwrap().len(),
        0 <= j < m.progs.unwrap().len(),
    ensures
        i != j ==> !(m.progs.unwrap()[i].start <= pc < m.progs.unwrap()[i].end
            && m.progs.unwrap()[j].start <= pc < m.progs.unwrap()[j].end),
        !(m.main.start <= pc < m.main.end && m.progs.unwrap()[i].start <= pc
            < m.progs.unwrap()[i].end),
        !(m.progs.unwrap()[i].start <= m.main.start < m.progs.unwrap()[i].end),
{
    let ps = m.progs.unwrap();
    if i < j {
        assert(ps[i].end <= ps[j].start);
    } else if j < i {
        assert(ps[j].end <= ps[i].start);
    }
    assert(!ranges_overlap(m.main, ps[i]));
}

/// The tracer's time follows the clock: of two readings, the later one
/// gives the later time, and a reading at or past the epoch gives what it
/// is past the epoch.
pub proof fn lemma_since_follows_clock(m: TracerModel, now: u64, later: u64)
    requires
        now <= later,
    ensures
        m.since(now) <= m.since(later),
        now >= m.epoch ==> m.since(now) == now - m.epoch,
{
}

/// In a tracer that satisfies its invariant, the log and its time stamps
/// have the same length, and the time stamps never fall.
pub proof fn lemma_log_and_times_agree(m: TracerModel)
    requires
        m.inv(),
    ensures
        m.log.len() == m.times.len(),
        forall|i: int, j: int| 0 <= i <= j < m.times.len() ==> m.times[i] <= m.times[j],
{
}

/// In a tracer that satisfies its invariant, no two neighbours in the log
/// are both external, and no two neighbours on the stack are.
pub proof fn lemma_no_external_runs(m: TracerModel, i: int)
    requires
        m.inv(),
        0 <= i,
    ensures
        i + 1 < m.log.len() ==> !(m.log_frame(i).is_external() && m.log_frame(i + 1).is_external()),
        i + 1 < m.stack.len() ==> !(m.stack_frame(i).is_external() && m.stack_frame(
            i + 1,
        ).is_external()),
{
    if i + 1 < m.log.len() {
        let a = m.log_frame(i);
        let b = m.log_frame(i + 1);
    }
    if i + 1 < m.stack.len() {
        let a = m.stack_frame(i);
        let b = m.stack_frame(i + 1);
    }
}

/// In a tracer that satisfies its invariant, every frame on the stack that
/// is not external has an entry in the log, and no frame ends before it
/// starts.
pub proof fn lemma_stacked_locals_logged(m: TracerModel, i: int)
    requires
        m.inv(),
        0 <= i < m.stack.len(),
    ensures
        !m.stack_frame(i).is_external() ==> m.log.contains(m.stack[i]),
        m.stack_frame(i).start_time <= m.stack_frame(i).end_time,
{
    assert(m.frame_ok(m.frames[m.stack[i] as int]));
}

/// A call offers an anonymous frame that enters the stack but not the log:
/// the call leaves the frame on top of the stack, resolves to no record,
/// and finds the log ending in an external frame while the stack does not.
pub open spec fn stacks_unlogged(m: TracerModel, pc: u64) -> bool {
    &&& m.log.len() > 0
    &&& !m.in_bounds(m.top(), pc)
    &&& match m.locate(pc) {
        Some(r) => m.image(r).lookup(pc) is None,
        None => true,
    }
    &&& m.tail().is_external()
    &&& !m.top().is_external()
}

/// Where every frame on the stack has an entry in the log, that is still so
/// after a call, unless the call stacks an anonymous frame that the log
/// does not take; then the new top of the stack has no entry in the log.
pub proof fn lemma_call_keeps_stack_in_log(
    m: TracerModel,
    pc: u64,
    paras: Option<Seq<u64>>,
    now: u64,
)
    requires
        m.inv(),
        m.stack_in_log(),
        m.call(pc, paras, now).frames.len() <= usize::MAX,
    ensures
        !stacks_unlogged(m, pc) ==> m.call(pc, paras, now).stack_in_log(),
        stacks_unlogged(m, pc) ==> !m.call(pc, paras, now).log.contains(
            m.call(pc, paras, now).stack.last(),
        ),
{
    let t = m.tick(now);
    let s = TracerModel { clock: t, ..m };
    let p = m.call(pc, paras, now);
    lemma_advance_keeps_inv(m, t, m.cursor);
    assert(s == TracerModel { clock: t, cursor: m.cursor, ..m });
    if m.log.len() == 0 {
        let first = TracerModel { cursor: CurReader::MainReader, ..s };
        lemma_advance_keeps_inv(m, t, CurReader::MainReader);
        assert(first == TracerModel { clock: t, cursor: CurReader::MainReader, ..m });
        lemma_resolved(first, CurReader::MainReader, pc, m.kept(paras), t);
        lemma_pushed_keeps_inv(first, first.resolved(CurReader::MainReader, pc, m.kept(paras), t), t);
    } else if m.in_bounds(m.top(), pc) {
    } else {
        match m.locate(pc) {
            Some(r) => {
                lemma_locate(m, pc);
                let moved = TracerModel { cursor: r, ..s };
                lemma_advance_keeps_inv(m, t, r);
                assert(moved == TracerModel { clock: t, cursor: r, ..m });
                let f = moved.resolved(r, pc, m.kept(paras), t);
                lemma_resolved(moved, r, pc, m.kept(paras), t);
                assert(moved.image(r) == m.image(r));
                assert(moved.top() == m.top());
                assert(moved.tail() == m.tail());
                if f.is_external() {
                    lemma_anonymous_and_stack_in_log(moved, f, t);
                } else {
                    lemma_pushed_keeps_inv(moved, f, t);
                }
            },
            None => {
                assert(s.top() == m.top());
                assert(s.tail() == m.tail());
                lemma_anonymous_and_stack_in_log(s, FrameModel::entered_nowhere(0, t, m.kept(paras)), t);
            },
        }
    }
}

/// Offering an anonymous frame keeps every stacked frame in the log, unless
/// the stack takes the frame and the log does not.
pub proof fn lemma_anonymous_and_stack_in_log(s: TracerModel, f: FrameModel, t: u64)
    requires
        s.inv(),
        s.stack_in_log(),
        s.log.len() > 0,
        s.pushed_anonymous(f, t).frames.len() <= usize::MAX,
    ensures
        !(s.tail().is_external() && !s.top().is_external()) ==> s.pushed_anonymous(
            f,
            t,
        ).stack_in_log(),
        s.tail().is_external() && !s.top().is_external() ==> !s.pushed_anonymous(
            f,
            t,
        ).log.contains(s.pushed_anonymous(f, t).stack.last()),
{
    let p = s.pushed_anonymous(f, t);
    let to_log = !s.tail().is_external();
    let to_stack = !s.top().is_external();
    if !to_log && to_stack {
        assert(p.stack.last() == s.fresh());
        if p.log.contains(p.stack.last()) {
            let k = choose|k: int| 0 <= k < p.log.len() && p.log[k] == p.stack.last();
            assert(s.log[k] < s.frames.len());
        }
    } else {
        assert forall|i: int| 0 <= i < p.stack.len() implies p.log.contains(
            #[trigger] p.stack[i],
        ) by {
            if i < s.stack.len() {
                assert(s.log.contains(s.stack[i]));
                let k = choose|k: int| 0 <= k < s.log.len() && s.log[k] == s.stack[i];
                assert(p.log[k] == s.stack[i]);
            } else {
                assert(p.log[p.log.len() - 1] == p.stack[i]);
            }
        }
    }
}

/// No image of the tracer has a record that a lookup of `pc` yields.
pub open spec fn unresolved(m: TracerModel, pc: u64) -> bool {
    forall|r: CurReader| m.reader_ok(r) ==> (#[trigger] m.image(r)).lookup(pc) is None
}

/// After a call to an address that resolves to no record, the stack and the
/// log both end in an external frame, and each has grown by one frame at
/// most.
pub proof fn lemma_unresolved_call(m: TracerModel, pc: u64, paras: Option<Seq<u64>>, now: u64)
    requires
        m.inv(),
        unresolved(m, pc),
        m.call(pc, paras, now).frames.len() <= usize::MAX,
    ensures
        m.call(pc, paras, now).stack.len() <= m.stack.len() + 1,
        m.call(pc, paras, now).log.len() <= m.log.len() + 1,
        m.call(pc, paras, now).log.len() > 0,
        m.log.len() == 0 || !m.in_bounds(m.top(), pc) ==> m.call(pc, paras, now).top().is_external()
            && m.call(pc, paras, now).tail().is_external(),
        m.log.len() > 0 && m.in_bounds(m.top(), pc) ==> m.call(pc, paras, now)
            == (TracerModel { clock: m.tick(now), ..m }),
{
    let t = m.tick(now);
    let s = TracerModel { clock: t, ..m };
    let p = m.call(pc, paras, now);
    lemma_call_keeps_inv(m, pc, paras, now);
    if m.log.len() == 0 {
        let first = TracerModel { cursor: CurReader::MainReader, ..s };
        assert(first.image(CurReader::MainReader) == m.image(CurReader::MainReader));
        assert(m.reader_ok(CurReader::MainReader));
        let f = first.resolved(CurReader::MainReader, pc, m.kept(paras), t);
        assert(f.is_external());
        assert(p.top() == f);
        assert(p.tail() == f);
    } else if m.in_bounds(m.top(), pc) {
    } else {
        match m.locate(pc) {
            Some(r) => {
                lemma_locate(m, pc);
                let moved = TracerModel { cursor: r, ..s };
                assert(moved.image(r) == m.image(r));
                let f = moved.resolved(r, pc, m.kept(paras), t);
                assert(f.is_external());
                lemma_anonymous_ends_external(moved, f, t);
            },
            None => {
                lemma_anonymous_ends_external(s, FrameModel::entered_nowhere(0, t, m.kept(paras)), t);
            },
        }
    }
}

/// After an anonymous frame has been offered, the stack and the log both
/// end in an external frame.
pub proof fn lemma_anonymous_ends_external(s: TracerModel, f: FrameModel, t: u64)
    requires
        s.log.len() > 0,
        s.stack.len() > 0,
        s.handles_ok(),
        f.is_external(),
    ensures
        s.pushed_anonymous(f, t).top().is_external(),
        s.pushed_anonymous(f, t).tail().is_external(),
        s.pushed_anonymous(f, t).stack.len() <= s.stack.len() + 1,
        s.pushed_anonymous(f, t).log.len() <= s.log.len() + 1,
{
    let p = s.pushed_anonymous(f, t);
    let to_log = !s.tail().is_external();
    let to_stack = !s.top().is_external();
    if to_stack {
        assert(p.top() == f);
    } else {
        assert(p.top() == s.top());
    }
    if to_log {
        assert(p.tail() == f);
    } else {
        assert(p.tail() == s.tail());
    }
}

/// Calling the same address that resolves to no record a second time
/// changes neither the stack nor the log, nor any frame.
pub proof fn lemma_repeated_unresolved_call(
    m: TracerModel,
    pc: u64,
    paras: Option<Seq<u64>>,
    now: u64,
    paras_again: Option<Seq<u64>>,
    now_again: u64,
)
    requires
        m.inv(),
        unresolved(m, pc),
        m.call(pc, paras, now).frames.len() <= usize::MAX,
    ensures
        m.call(pc, paras, now).call(pc, paras_again, now_again).stack == m.call(
            pc,
            paras,
            now,
        ).stack,
        m.call(pc, paras, now).call(pc, paras_again, now_again).log == m.call(pc, paras, now).log,
        m.call(pc, paras, now).call(pc, paras_again, now_again).times == m.call(
            pc,
            paras,
            now,
        ).times,
        m.call(pc, paras, now).call(pc, paras_again, now_again).frames == m.call(
            pc,
            paras,
            now,
        ).frames,
{
    let a = m.call(pc, paras, now);
    lemma_unresolved_call(m, pc, paras, now);
    lemma_call_keeps_inv(m, pc, paras, now);
    let t = a.tick(now_again);
    let s = TracerModel { clock: t, ..a };
    if a.in_bounds(a.top(), pc) {
    } else {
        if m.log.len() > 0 && m.in_bounds(m.top(), pc) {
            assert(a.top() == m.top());
            assert(a.in_bounds(a.top(), pc) == m.in_bounds(m.top(), pc));
        }
        assert(a.top().is_external() && a.tail().is_external());
        match a.locate(pc) {
            Some(r) => {
                lemma_locate(a, pc);
                let moved = TracerModel { cursor: r, ..s };
                assert(moved.image(r) == m.image(r));
                assert(m.reader_ok(r));
                let f = moved.resolved(r, pc, a.kept(paras_again), t);
                assert(f.is_external());
                assert(moved.top() == a.top());
                assert(moved.tail() == a.tail());
            },
            None => {
                assert(s.top() == a.top());
                assert(s.tail() == a.tail());
            },
        }
    }
}

} // verus!
