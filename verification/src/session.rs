//! The entry surface of the tracer: configuration is gathered step by step,
//! the tracer is built from it once, and instructions are then fed to it.

use crate::elf_reader::Func;
use crate::manager::{prog_file_models, shown_models, ImageFile, Manager};
use crate::model::{tracer_of, TraceFault, TracerModel};
use vstd::prelude::*;
use vstd::utf8::{decode_utf8, valid_utf8};

verus! {

/// The status that an entry point hands back when it fails.
pub const RC_ERROR_CODE: isize = -1;

/// The status that an entry point hands back when it succeeds.
pub const RC_SUCCESS_CODE: isize = 0;

/// The most bytes of a path that are looked at.
pub const MAX_PATH_LEN: usize = 300;

/// Decodes `bytes` as UTF-8 with `std::str::from_utf8`: the text where the
/// bytes are valid UTF-8, nothing where they are not.
#[verifier::external_body]
fn utf8_text(bytes: &[u8]) -> (text: Option<String>)
    ensures
        match text {
            Some(s) => valid_utf8(bytes@) && s@ == decode_utf8(bytes@),
            None => !valid_utf8(bytes@),
        },
{
    match std::str::from_utf8(bytes) {
        Ok(s) => Some(s.to_owned()),
        Err(_) => None,
    }
}

/// Position `p` holds the first zero byte of `bytes`.
pub open spec fn first_nul(bytes: Seq<u8>, p: int) -> bool {
    &&& 0 <= p < bytes.len()
    &&& bytes[p] == 0
    &&& forall|j: int| 0 <= j < p ==> bytes[j] != 0
}

/// The text that a buffer holds: the bytes before the first zero byte among
/// the first `m_len`, decoded as UTF-8. Nothing where there is no zero byte
/// among them, or where the bytes before it are not valid UTF-8.
pub open spec fn c_text(bytes: Seq<u8>, m_len: int) -> Option<Seq<char>> {
    text_before_nul(window(bytes, m_len))
}

/// The first `m_len` bytes of `bytes`, or all of them where there are
/// fewer.
pub open spec fn window(bytes: Seq<u8>, m_len: int) -> Seq<u8> {
    if m_len < bytes.len() {
        bytes.take(m_len)
    } else {
        bytes
    }
}

/// The bytes before the first zero byte, decoded as UTF-8.
pub open spec fn text_before_nul(bytes: Seq<u8>) -> Option<Seq<char>> {
    if exists|p: int| first_nul(bytes, p) {
        let text = bytes.take(choose|p: int| first_nul(bytes, p));
        if valid_utf8(text) {
            Some(decode_utf8(text))
        } else {
            None
        }
    } else {
        None
    }
}

/// The text that the buffer `in_string` holds, of which at most `m_len`
/// bytes are looked at.
#[verifier::loop_isolation(false)]
pub fn get_string(in_string: &[u8], m_len: usize) -> (text: Result<String, isize>)
    ensures
        match text {
            Ok(s) => c_text(in_string@, m_len as int) == Some(s@),
            Err(e) => e == RC_ERROR_CODE && c_text(in_string@, m_len as int) is None,
        },
{
    let n: usize = if m_len < in_string.len() {
        m_len
    } else {
        in_string.len()
    };
    let ghost seen = window(in_string@, m_len as int);
    let mut p: usize = 0;
    while p < n && in_string[p] != 0
        invariant
            p <= n,
            n == seen.len(),
            n <= in_string@.len(),
            forall|j: int| 0 <= j < n ==> seen[j] == in_string@[j],
            forall|j: int| 0 <= j < p ==> seen[j] != 0,
        decreases n - p,
    {
        p = p + 1;
    }
    if p == n {
        assert forall|q: int| !first_nul(seen, q) by {}
        return Err(RC_ERROR_CODE);
    }
    proof {
        assert(first_nul(seen, p as int));
        let c = choose|c: int| first_nul(seen, c);
        if c < p {
            assert(seen[c] != 0);
        }
        assert(c == p);
    }
    let text = vstd::slice::slice_subrange(in_string, 0, p);
    assert(text@ =~= seen.take(p as int));
    match utf8_text(text) {
        Some(s) => Ok(s),
        None => Err(RC_ERROR_CODE),
    }
}

/// The configuration of a tracer that is yet to be built.
#[derive(Debug)]
pub struct ManagerBuilder {
    show_context: bool,
    main_path: String,
    progs_path: Option<Vec<String>>,
}

/// What a [`ManagerBuilder`] holds.
pub struct BuilderModel {
    pub show_context: bool,
    pub main_path: Seq<char>,
    pub progs_path: Option<Seq<Seq<char>>>,
}

/// The texts of a sequence of strings.
pub open spec fn texts(paths: Seq<String>) -> Seq<Seq<char>> {
    Seq::new(paths.len(), |i: int| paths[i]@)
}

impl View for ManagerBuilder {
    type V = BuilderModel;

    closed spec fn view(&self) -> BuilderModel {
        BuilderModel {
            show_context: self.show_context,
            main_path: self.main_path@,
            progs_path: match self.progs_path {
                Some(v) => Some(texts(v@)),
                None => None,
            },
        }
    }
}

impl BuilderModel {
    /// A configuration with the given main path and nothing else set.
    pub open spec fn started(main_path: Seq<char>) -> BuilderModel {
        BuilderModel { show_context: false, main_path, progs_path: None }
    }

    /// The configuration with `path` among its auxiliary paths, once.
    pub open spec fn with_prog(self, path: Seq<char>) -> BuilderModel {
        BuilderModel {
            progs_path: match self.progs_path {
                Some(paths) => {
                    if paths.contains(path) {
                        Some(paths)
                    } else {
                        Some(paths.push(path))
                    }
                },
                None => Some(seq![path]),
            },
            ..self
        }
    }

    /// No auxiliary path occurs twice.
    pub open spec fn wf(self) -> bool {
        match self.progs_path {
            Some(paths) => forall|i: int, j: int|
                0 <= i < j < paths.len() ==> paths[i] != paths[j],
            None => true,
        }
    }
}

impl ManagerBuilder {
    /// A configuration with the given main path, without context and
    /// without auxiliary paths.
    pub fn new(main_path: &str) -> (builder: ManagerBuilder)
        ensures
            builder@ == BuilderModel::started(main_path@),
            builder@.wf(),
    {
        ManagerBuilder { show_context: false, main_path: main_path.to_owned(), progs_path: None }
    }

    /// Whether the tracer is to keep register snapshots and return
    /// registers.
    pub fn show_context(&self) -> (show_context: bool)
        ensures
            show_context == self@.show_context,
    {
        self.show_context
    }

    /// The path of the main image.
    pub fn main_path(&self) -> (path: &str)
        ensures
            path@ == self@.main_path,
    {
        self.main_path.as_str()
    }

    /// The paths of the auxiliary images, in the order in which they were
    /// first added.
    pub fn progs_path(&self) -> (paths: Option<&Vec<String>>)
        ensures
            match paths {
                Some(v) => self@.progs_path == Some(texts(v@)),
                None => self@.progs_path is None,
            },
    {
        self.progs_path.as_ref()
    }

    /// Sets whether the tracer is to keep context.
    pub fn set_show_context(&mut self, show_context: bool)
        ensures
            final(self)@ == (BuilderModel { show_context, ..old(self)@ }),
    {
        self.show_context = show_context;
    }

    /// Adds the path of an auxiliary image, unless it is there already.
    pub fn add_prog_path(&mut self, path: String)
        requires
            old(self)@.wf(),
        ensures
            final(self)@ == old(self)@.with_prog(path@),
            final(self)@.wf(),
    {
        let known: bool = match &self.progs_path {
            Some(paths) => Self::holds(paths, &path),
            None => false,
        };
        if known {
            return ;
        }
        match self.progs_path.take() {
            Some(mut paths) => {
                let ghost before = texts(paths@);
                paths.push(path);
                assert(texts(paths@) =~= before.push(path@));
                self.progs_path = Some(paths);
            },
            None => {
                let mut paths: Vec<String> = Vec::new();
                paths.push(path);
                assert(texts(paths@) =~= seq![path@]);
                self.progs_path = Some(paths);
            },
        }
    }

    /// Whether `path` is among `paths`.
    fn holds(paths: &Vec<String>, path: &String) -> (known: bool)
        ensures
            known == texts(paths@).contains(path@),
    {
        let n: usize = paths.len();
        let mut i: usize = 0;
        while i < n
            invariant
                i <= n,
                n == paths@.len(),
                forall|j: int| 0 <= j < i ==> texts(paths@)[j] != path@,
            decreases n - i,
        {
            assert(texts(paths@)[i as int] == paths@[i as int]@);
            if paths[i] == *path {
                return true;
            }
            i = i + 1;
        }
        false
    }
}

/// The entry surface: the configuration while there is one, and the tracer
/// once it is built.
pub struct Session {
    builder: Option<ManagerBuilder>,
    manager: Option<Manager>,
}

/// What a [`Session`] holds.
pub struct SessionModel {
    pub builder: Option<BuilderModel>,
    pub tracer: Option<TracerModel>,
}

impl View for Session {
    type V = SessionModel;

    closed spec fn view(&self) -> SessionModel {
        SessionModel {
            builder: match self.builder {
                Some(b) => Some(b@),
                None => None,
            },
            tracer: match self.manager {
                Some(m) => Some(m@),
                None => None,
            },
        }
    }
}

impl SessionModel {
    /// The tracer, where there is one, satisfies its invariant, and so does
    /// the configuration.
    pub open spec fn wf(self) -> bool {
        &&& self.tracer is Some ==> self.tracer.unwrap().inv()
        &&& self.builder is Some ==> self.builder.unwrap().wf()
    }
}

impl Session {
    /// A session without configuration and without tracer.
    pub fn new() -> (session: Session)
        ensures
            session@ == (SessionModel { builder: None, tracer: None }),
            session@.wf(),
    {
        Session { builder: None, manager: None }
    }

    /// Starts a configuration with the given main path. Fails, and changes
    /// nothing, where a configuration is there already.
    pub fn start_builder(&mut self, main_path: &str) -> (done: Result<(), isize>)
        requires
            old(self)@.wf(),
        ensures
            final(self)@.wf(),
            match done {
                Ok(_) => old(self)@.builder is None && final(self)@ == (SessionModel {
                    builder: Some(BuilderModel::started(main_path@)),
                    ..old(self)@
                }),
                Err(e) => e == RC_ERROR_CODE && old(self)@.builder is Some && final(self)@ == old(
                    self,
                )@,
            },
    {
        if self.builder.is_some() {
            return Err(RC_ERROR_CODE);
        }
        self.builder = Some(ManagerBuilder::new(main_path));
        Ok(())
    }

    /// Discards the configuration, so that another one can be started. A
    /// tracer that was built stays.
    pub fn teardown(&mut self)
        requires
            old(self)@.wf(),
        ensures
            final(self)@ == (SessionModel { builder: None, ..old(self)@ }),
            final(self)@.wf(),
    {
        self.builder = None;
    }

    /// Sets whether the tracer is to keep context. Fails where no
    /// configuration was started.
    pub fn set_show_context(&mut self, show_context: bool) -> (done: Result<(), isize>)
        requires
            old(self)@.wf(),
        ensures
            final(self)@.wf(),
            match done {
                Ok(_) => old(self)@.builder is Some && final(self)@ == (SessionModel {
                    builder: Some(BuilderModel { show_context, ..old(self)@.builder.unwrap() }),
                    ..old(self)@
                }),
                Err(e) => e == RC_ERROR_CODE && old(self)@.builder is None && final(self)@ == old(
                    self,
                )@,
            },
    {
        match &mut self.builder {
            Some(x) => {
                x.set_show_context(show_context);
                Ok(())
            },
            None => Err(RC_ERROR_CODE),
        }
    }

    /// Adds the path of an auxiliary image, unless it is there already.
    /// Fails where no configuration was started.
    pub fn add_prog_path(&mut self, path: String) -> (done: Result<(), isize>)
        requires
            old(self)@.wf(),
        ensures
            final(self)@.wf(),
            match done {
                Ok(_) => old(self)@.builder is Some && final(self)@ == (SessionModel {
                    builder: Some(old(self)@.builder.unwrap().with_prog(path@)),
                    ..old(self)@
                }),
                Err(e) => e == RC_ERROR_CODE && old(self)@.builder is None && final(self)@ == old(
                    self,
                )@,
            },
    {
        match &mut self.builder {
            Some(x) => {
                x.add_prog_path(path);
                Ok(())
            },
            None => Err(RC_ERROR_CODE),
        }
    }

    /// The configuration, while there is one.
    pub fn builder(&self) -> (builder: Option<&ManagerBuilder>)
        ensures
            match builder {
                Some(b) => self@.builder == Some(b@),
                None => self@.builder is None,
            },
    {
        self.builder.as_ref()
    }

    /// The tracer, once it is built.
    pub fn manager(&self) -> (manager: Option<&Manager>)
        ensures
            match manager {
                Some(m) => self@.tracer == Some(m@),
                None => self@.tracer is None,
            },
    {
        self.manager.as_ref()
    }

    /// Builds the tracer on the given files, with the context setting of
    /// the configuration. Fails, and changes nothing, where no
    /// configuration was started, where the tracer is built already, and
    /// where no tracer can be built on the files.
    pub fn build_builder(&mut self, main: &ImageFile, progs: Option<&Vec<ImageFile>>) -> (done:
        Result<(), isize>)
        requires
            old(self)@.wf(),
        ensures
            final(self)@.wf(),
            match done {
                Ok(_) => {
                    &&& old(self)@.builder is Some
                    &&& old(self)@.tracer is None
                    &&& final(self)@.tracer is Some
                    &&& tracer_of(
                        old(self)@.builder.unwrap().show_context,
                        main@,
                        prog_file_models(progs),
                    ) is Ok
                    &&& final(self)@.tracer.unwrap() == tracer_of(
                        old(self)@.builder.unwrap().show_context,
                        main@,
                        prog_file_models(progs),
                    )->Ok_0.with_epoch(final(self)@.tracer.unwrap().epoch)
                    &&& final(self)@.builder == old(self)@.builder
                },
                Err(e) => {
                    &&& e == RC_ERROR_CODE
                    &&& final(self)@ == old(self)@
                    &&& {
                        ||| old(self)@.builder is None
                        ||| old(self)@.tracer is Some
                        ||| tracer_of(
                            old(self)@.builder.unwrap().show_context,
                            main@,
                            prog_file_models(progs),
                        ) is Err
                    }
                },
            },
    {
        let show_context: bool = match &self.builder {
            Some(b) => b.show_context(),
            None => {
                return Err(RC_ERROR_CODE);
            },
        };
        if self.manager.is_some() {
            return Err(RC_ERROR_CODE);
        }
        match Manager::new(show_context, main, progs) {
            Ok(m) => {
                self.manager = Some(m);
                Ok(())
            },
            Err(_) => Err(RC_ERROR_CODE),
        }
    }

    /// Traces the instruction `inst`, run at `pc` with the register file
    /// `regs`, at the present time. Nothing happens while no tracer is
    /// built.
    pub fn check_instruction(&mut self, pc: u64, inst: u32, regs: &[u64]) -> (done: Result<
        (),
        TraceFault,
    >)
        requires
            old(self)@.wf(),
            regs@.len() == 32,
        ensures
            final(self)@.wf(),
            final(self)@.builder == old(self)@.builder,
            match old(self)@.tracer {
                None => done is Ok && final(self)@ == old(self)@,
                Some(before) => {
                    &&& final(self)@.tracer is Some
                    &&& final(self)@.tracer.unwrap().clock >= before.clock
                    &&& final(self)@.tracer.unwrap() == before.step(
                        pc,
                        inst,
                        regs@,
                        final(self)@.tracer.unwrap().clock,
                    )
                    &&& match done {
                        Ok(_) => before.step_fault(pc, inst, regs@) is None,
                        Err(e) => before.step_fault(pc, inst, regs@) == Some(e),
                    }
                },
            },
    {
        match &mut self.manager {
            Some(manager) => manager.check_instruction(pc, inst, regs),
            None => Ok(()),
        }
    }

    /// The shadow stack as a dump shows it, top frame first; nothing while
    /// no tracer is built.
    pub fn stack_dump(&self) -> (dump: Option<Vec<Option<&Func>>>)
        requires
            self@.wf(),
        ensures
            match dump {
                Some(entries) => {
                    &&& self@.tracer is Some
                    &&& entries@.len() == self@.tracer.unwrap().stack.len()
                    &&& forall|d: int|
                        0 <= d < entries@.len() ==> (#[trigger] shown_models(entries@)[d])
                            == self@.tracer.unwrap().shown(
                            self@.tracer.unwrap().stack_frame(
                                self@.tracer.unwrap().stack.len() - 1 - d,
                            ),
                        )
                },
                None => self@.tracer is None,
            },
    {
        match &self.manager {
            Some(manager) => Some(manager.stack_dump()),
            None => None,
        }
    }
}

} // verus!
