//! The workload daemon: what requests for virtual machines and containers come
//! to.
//!
//! Its commands are `create`, `delete`, `start`, `stop` and `list`, each behind
//! `vm.`, `lxc.` or `ct.`: for virtual machines, LXC containers and containers
//! of containerd. The daemon reads them and words the answers; a backend does
//! the work.

use crate::control;
use crate::control::{
    read_request, unknown_tag_reply, ControlOp, ControlReply, Op, Reply, Request, Verdict,
};
use crate::text::same_text;
use crate::wire;
use crate::wire::Wire;
use vstd::prelude::*;

verus! {

pub fn default_containerd_sock() -> (r: String)
    ensures
        r@ == "/run/containerd/containerd.sock"@,
{
    "/run/containerd/containerd.sock".to_owned()
}

pub fn default_cgroup_parent() -> (r: String)
    ensures
        r@ == "/hivebus"@,
{
    "/hivebus".to_owned()
}

pub fn default_image_dir() -> (r: String)
    ensures
        r@ == "/var/lib/hivebus/images"@,
{
    "/var/lib/hivebus/images".to_owned()
}

/// The settings of the daemon.
#[derive(Debug)]
pub struct OrchestratorConfig {
    /// Socket of containerd.
    pub containerd_socket: String,
    /// Parent of the control groups of workloads.
    pub cgroup_parent: String,
    /// Directory of the disk images.
    pub image_dir: String,
}

impl Default for OrchestratorConfig {
    fn default() -> (r: OrchestratorConfig)
        ensures
            r.containerd_socket@ == "/run/containerd/containerd.sock"@,
            r.cgroup_parent@ == "/hivebus"@,
            r.image_dir@ == "/var/lib/hivebus/images"@,
    {
        OrchestratorConfig {
            containerd_socket: default_containerd_sock(),
            cgroup_parent: default_cgroup_parent(),
            image_dir: default_image_dir(),
        }
    }
}

/// How a workload runs.
#[derive(Debug, Clone, Copy, PartialEq, Eq, Structural)]
pub enum VirtKind {
    Kvm,
    Lxc,
    Container,
}

/// A workload that is asked for.
#[derive(Debug)]
pub struct WorkloadSpec {
    pub id: String,
    pub kind: VirtKind,
    pub image: String,
    pub cpus: u32,
    pub memory_mb: u64,
    pub extra: Vec<(String, String)>,
}

/// The mathematical form of a [`WorkloadSpec`].
#[verifier::ext_equal]
pub struct Workload {
    pub id: Seq<char>,
    pub kind: VirtKind,
    pub image: Seq<char>,
    pub cpus: u32,
    pub memory_mb: u64,
    pub extra: Seq<(Seq<char>, Seq<char>)>,
}

/// How a workload is.
#[derive(Debug)]
pub struct WorkloadStatus {
    pub id: String,
    pub kind: VirtKind,
    pub running: bool,
    pub pid: Option<i32>,
}

/// The mathematical form of a [`WorkloadStatus`].
#[verifier::ext_equal]
pub struct Status {
    pub id: Seq<char>,
    pub kind: VirtKind,
    pub running: bool,
    pub pid: Option<i32>,
}

impl DeepView for VirtKind {
    type V = VirtKind;

    open spec fn deep_view(&self) -> VirtKind {
        *self
    }
}

impl DeepView for WorkloadSpec {
    type V = Workload;

    open spec fn deep_view(&self) -> Workload {
        Workload {
            id: self.id@,
            kind: self.kind,
            image: self.image@,
            cpus: self.cpus,
            memory_mb: self.memory_mb,
            extra: self.extra.deep_view(),
        }
    }
}

impl DeepView for WorkloadStatus {
    type V = Status;

    open spec fn deep_view(&self) -> Status {
        Status {
            id: self.id@,
            kind: self.kind,
            running: self.running,
            pid: self.pid.deep_view(),
        }
    }
}

impl Wire for VirtKind {
    open spec fn wire(v: VirtKind) -> Seq<u8> {
        <u32 as Wire>::wire(
            match v {
                VirtKind::Kvm => 0,
                VirtKind::Lxc => 1,
                VirtKind::Container => 2,
            },
        )
    }

    open spec fn parse(b: Seq<u8>) -> Result<(VirtKind, Seq<u8>), Seq<char>> {
        match <u32 as Wire>::parse(b) {
            Err(text) => Err(text),
            Ok((i, rest)) => if i == 0 {
                Ok((VirtKind::Kvm, rest))
            } else if i == 1 {
                Ok((VirtKind::Lxc, rest))
            } else if i == 2 {
                Ok((VirtKind::Container, rest))
            } else {
                Err(wire::variant_refusal(i, "variant index 0 <= i < 3"@))
            },
        }
    }

    open spec fn fits(v: VirtKind) -> bool {
        true
    }

    open spec fn encodable(v: VirtKind) -> bool {
        true
    }

    proof fn round_trip(v: VirtKind, rest: Seq<u8>) {
        <u32 as Wire>::round_trip(0, rest);
        <u32 as Wire>::round_trip(1, rest);
        <u32 as Wire>::round_trip(2, rest);
    }

    fn is_encodable(&self) -> (r: bool) {
        true
    }

    fn encode(&self, out: &mut Vec<u8>) {
        let i: u32 = match *self {
            VirtKind::Kvm => 0,
            VirtKind::Lxc => 1,
            VirtKind::Container => 2,
        };
        i.encode(out);
    }

    fn decode(b: &[u8]) -> (r: Result<(VirtKind, &[u8]), String>) {
        match <u32 as Wire>::decode(b) {
            Err(text) => Err(text),
            Ok((i, rest)) => if i == 0 {
                Ok((VirtKind::Kvm, rest))
            } else if i == 1 {
                Ok((VirtKind::Lxc, rest))
            } else if i == 2 {
                Ok((VirtKind::Container, rest))
            } else {
                Err(wire::bincode_bad_variant(i, "variant index 0 <= i < 3"))
            },
        }
    }
}

type WorkloadFields = (String, (VirtKind, (String, (u32, (u64, Vec<(String, String)>)))));

impl Wire for WorkloadSpec {
    open spec fn wire(v: Workload) -> Seq<u8> {
        <WorkloadFields as Wire>::wire(
            (v.id, (v.kind, (v.image, (v.cpus, (v.memory_mb, v.extra))))),
        )
    }

    open spec fn parse(b: Seq<u8>) -> Result<(Workload, Seq<u8>), Seq<char>> {
        match <WorkloadFields as Wire>::parse(b) {
            Err(text) => Err(text),
            Ok(((id, (kind, (image, (cpus, (memory_mb, extra))))), rest)) => Ok(
                (Workload { id, kind, image, cpus, memory_mb, extra }, rest),
            ),
        }
    }

    open spec fn fits(v: Workload) -> bool {
        <WorkloadFields as Wire>::fits(
            (v.id, (v.kind, (v.image, (v.cpus, (v.memory_mb, v.extra))))),
        )
    }

    open spec fn encodable(v: Workload) -> bool {
        true
    }

    proof fn round_trip(v: Workload, rest: Seq<u8>) {
        <WorkloadFields as Wire>::round_trip(
            (v.id, (v.kind, (v.image, (v.cpus, (v.memory_mb, v.extra))))),
            rest,
        );
    }

    fn is_encodable(&self) -> (r: bool) {
        true
    }

    fn encode(&self, out: &mut Vec<u8>) {
        self.id.encode(out);
        self.kind.encode(out);
        self.image.encode(out);
        self.cpus.encode(out);
        self.memory_mb.encode(out);
        self.extra.encode(out);
        assert(out@ =~= old(out)@ + Self::wire(self.deep_view()));
    }

    fn decode(b: &[u8]) -> (r: Result<(WorkloadSpec, &[u8]), String>) {
        match <WorkloadFields as Wire>::decode(b) {
            Err(text) => Err(text),
            Ok(((id, (kind, (image, (cpus, (memory_mb, extra))))), rest)) => Ok(
                (WorkloadSpec { id, kind, image, cpus, memory_mb, extra }, rest),
            ),
        }
    }
}

type StatusFields = (String, (VirtKind, (bool, Option<i32>)));

impl Wire for WorkloadStatus {
    open spec fn wire(v: Status) -> Seq<u8> {
        <StatusFields as Wire>::wire((v.id, (v.kind, (v.running, v.pid))))
    }

    open spec fn parse(b: Seq<u8>) -> Result<(Status, Seq<u8>), Seq<char>> {
        match <StatusFields as Wire>::parse(b) {
            Err(text) => Err(text),
            Ok(((id, (kind, (running, pid))), rest)) => Ok(
                (Status { id, kind, running, pid }, rest),
            ),
        }
    }

    open spec fn fits(v: Status) -> bool {
        <StatusFields as Wire>::fits((v.id, (v.kind, (v.running, v.pid))))
    }

    open spec fn encodable(v: Status) -> bool {
        true
    }

    proof fn round_trip(v: Status, rest: Seq<u8>) {
        <StatusFields as Wire>::round_trip((v.id, (v.kind, (v.running, v.pid))), rest);
    }

    fn is_encodable(&self) -> (r: bool) {
        true
    }

    fn encode(&self, out: &mut Vec<u8>) {
        self.id.encode(out);
        self.kind.encode(out);
        self.running.encode(out);
        self.pid.encode(out);
        assert(out@ =~= old(out)@ + Self::wire(self.deep_view()));
    }

    fn decode(b: &[u8]) -> (r: Result<(WorkloadStatus, &[u8]), String>) {
        match <StatusFields as Wire>::decode(b) {
            Err(text) => Err(text),
            Ok(((id, (kind, (running, pid))), rest)) => Ok(
                (WorkloadStatus { id, kind, running, pid }, rest),
            ),
        }
    }
}

/// What is to be done with the workloads of a kind that are there.
#[derive(Debug, Clone, Copy, PartialEq, Eq, Structural)]
pub enum Upkeep {
    Delete,
    Start,
    Stop,
    List,
}

/// What the daemon does with a request.
#[derive(Debug)]
pub enum VirtAction {
    /// Answer this.
    Reply(ControlReply),
    /// Exit without an answer.
    Exit,
    /// Create a virtual machine, and answer with [`vm_reply`].
    CreateVm { id: String, memory_mb: u64 },
    /// Have containerd create a container, and answer with [`vm_reply`].
    CreateCt { id: String, image: String },
    /// Have the backend for `kind` do what is asked; the payload is for it to
    /// read. Answer with [`upkeep_reply`].
    Tend { kind: VirtKind, upkeep: Upkeep, payload: Vec<u8> },
}

/// The mathematical form of a [`VirtAction`].
#[verifier::ext_equal]
pub enum VirtStep {
    Reply(Reply),
    Exit,
    CreateVm { id: Seq<char>, memory_mb: u64 },
    CreateCt { id: Seq<char>, image: Seq<char> },
    Tend { kind: VirtKind, upkeep: Upkeep, payload: Seq<u8> },
}

impl DeepView for VirtAction {
    type V = VirtStep;

    open spec fn deep_view(&self) -> VirtStep {
        match self {
            VirtAction::Reply(reply) => VirtStep::Reply(reply.deep_view()),
            VirtAction::Exit => VirtStep::Exit,
            VirtAction::CreateVm { id, memory_mb } => VirtStep::CreateVm {
                id: id@,
                memory_mb: *memory_mb,
            },
            VirtAction::CreateCt { id, image } => VirtStep::CreateCt { id: id@, image: image@ },
            VirtAction::Tend { kind, upkeep, payload } => VirtStep::Tend {
                kind: *kind,
                upkeep: *upkeep,
                payload: payload@,
            },
        }
    }
}

/// What a command asks for that is about workloads that are there.
pub open spec fn upkeep_of(tag: Seq<char>) -> Option<(VirtKind, Upkeep)> {
    if tag == "vm.delete"@ {
        Some((VirtKind::Kvm, Upkeep::Delete))
    } else if tag == "vm.start"@ {
        Some((VirtKind::Kvm, Upkeep::Start))
    } else if tag == "vm.stop"@ {
        Some((VirtKind::Kvm, Upkeep::Stop))
    } else if tag == "vm.list"@ {
        Some((VirtKind::Kvm, Upkeep::List))
    } else if tag == "lxc.delete"@ {
        Some((VirtKind::Lxc, Upkeep::Delete))
    } else if tag == "lxc.start"@ {
        Some((VirtKind::Lxc, Upkeep::Start))
    } else if tag == "lxc.stop"@ {
        Some((VirtKind::Lxc, Upkeep::Stop))
    } else if tag == "lxc.list"@ {
        Some((VirtKind::Lxc, Upkeep::List))
    } else if tag == "ct.delete"@ {
        Some((VirtKind::Container, Upkeep::Delete))
    } else if tag == "ct.start"@ {
        Some((VirtKind::Container, Upkeep::Start))
    } else if tag == "ct.stop"@ {
        Some((VirtKind::Container, Upkeep::Stop))
    } else if tag == "ct.list"@ {
        Some((VirtKind::Container, Upkeep::List))
    } else {
        None
    }
}

fn upkeep_for(tag: &str) -> (r: Option<(VirtKind, Upkeep)>)
    ensures
        r == upkeep_of(tag@),
{
    if same_text(tag, "vm.delete") {
        Some((VirtKind::Kvm, Upkeep::Delete))
    } else if same_text(tag, "vm.start") {
        Some((VirtKind::Kvm, Upkeep::Start))
    } else if same_text(tag, "vm.stop") {
        Some((VirtKind::Kvm, Upkeep::Stop))
    } else if same_text(tag, "vm.list") {
        Some((VirtKind::Kvm, Upkeep::List))
    } else if same_text(tag, "lxc.delete") {
        Some((VirtKind::Lxc, Upkeep::Delete))
    } else if same_text(tag, "lxc.start") {
        Some((VirtKind::Lxc, Upkeep::Start))
    } else if same_text(tag, "lxc.stop") {
        Some((VirtKind::Lxc, Upkeep::Stop))
    } else if same_text(tag, "lxc.list") {
        Some((VirtKind::Lxc, Upkeep::List))
    } else if same_text(tag, "ct.delete") {
        Some((VirtKind::Container, Upkeep::Delete))
    } else if same_text(tag, "ct.start") {
        Some((VirtKind::Container, Upkeep::Start))
    } else if same_text(tag, "ct.stop") {
        Some((VirtKind::Container, Upkeep::Stop))
    } else if same_text(tag, "ct.list") {
        Some((VirtKind::Container, Upkeep::List))
    } else {
        None
    }
}

/// What the daemon does with a request of its own.
pub open spec fn command_step(tag: Seq<char>, payload: Seq<u8>) -> VirtStep {
    if tag == "vm.create"@ {
        match wire::front::<WorkloadSpec>(payload) {
            Ok(spec) => VirtStep::CreateVm { id: spec.id, memory_mb: spec.memory_mb },
            Err(_) => VirtStep::Reply(Reply::Error { message: "invalid payload"@ }),
        }
    } else if tag == "lxc.create"@ {
        match wire::front::<WorkloadSpec>(payload) {
            Ok(_) => VirtStep::Reply(Reply::Done),
            Err(_) => VirtStep::Reply(Reply::Error { message: "invalid payload"@ }),
        }
    } else if tag == "ct.create"@ {
        match wire::front::<WorkloadSpec>(payload) {
            Ok(spec) => VirtStep::CreateCt { id: spec.id, image: spec.image },
            Err(_) => VirtStep::Reply(Reply::Error { message: "invalid payload"@ }),
        }
    } else {
        match upkeep_of(tag) {
            Some((kind, upkeep)) => VirtStep::Tend { kind, upkeep, payload },
            None => VirtStep::Reply(control::unknown_tag(tag)),
        }
    }
}

/// Decides about a request of the daemon's own.
pub fn handle_command(tag: &str, payload: &[u8]) -> (r: VirtAction)
    ensures
        r.deep_view() == command_step(tag@, payload@),
{
    if same_text(tag, "vm.create") {
        match wire::from_slice::<WorkloadSpec>(payload) {
            Ok(spec) => VirtAction::CreateVm { id: spec.id, memory_mb: spec.memory_mb },
            Err(_) => VirtAction::Reply(
                ControlReply::Error { message: "invalid payload".to_owned() },
            ),
        }
    } else if same_text(tag, "lxc.create") {
        match wire::from_slice::<WorkloadSpec>(payload) {
            Ok(spec) => VirtAction::Reply(
                vm_reply(create_container(spec.id.as_str(), spec.image.as_str())),
            ),
            Err(_) => VirtAction::Reply(
                ControlReply::Error { message: "invalid payload".to_owned() },
            ),
        }
    } else if same_text(tag, "ct.create") {
        match wire::from_slice::<WorkloadSpec>(payload) {
            Ok(spec) => VirtAction::CreateCt { id: spec.id, image: spec.image },
            Err(_) => VirtAction::Reply(
                ControlReply::Error { message: "invalid payload".to_owned() },
            ),
        }
    } else {
        match upkeep_for(tag) {
            Some((kind, upkeep)) => {
                let mut bytes: Vec<u8> = Vec::new();
                bytes.extend_from_slice(payload);
                assert(bytes@ =~= payload@);
                VirtAction::Tend { kind, upkeep, payload: bytes }
            },
            None => VirtAction::Reply(unknown_tag_reply(tag)),
        }
    }
}

/// Creates an LXC container. Nothing is started yet, so this does not fail.
pub fn create_container(_id: &str, _rootfs: &str) -> (r: Result<(), String>)
    ensures
        r == Ok::<(), String>(()),
{
    Ok(())
}

/// The answer when a workload was created, or why it was not.
pub fn vm_reply(outcome: Result<(), String>) -> (r: ControlReply)
    ensures
        r.deep_view() == match outcome {
            Ok(_) => Reply::Done,
            Err(message) => Reply::Error { message: message@ },
        },
{
    match outcome {
        Ok(()) => ControlReply::Done,
        Err(message) => ControlReply::Error { message },
    }
}

/// The command that asks for a list of the workloads of a kind.
pub open spec fn list_tag(kind: VirtKind) -> Seq<char> {
    match kind {
        VirtKind::Kvm => "vm.list"@,
        VirtKind::Lxc => "lxc.list"@,
        VirtKind::Container => "ct.list"@,
    }
}

/// The answer when the backend for `kind` was to do something with the
/// workloads that are there: why it did not, or else the workloads that it
/// gives, if they were to be listed.
pub open spec fn upkeep_answer(
    kind: VirtKind,
    upkeep: Upkeep,
    outcome: Result<Seq<Status>, Seq<char>>,
) -> Reply {
    match outcome {
        Err(message) => Reply::Error { message },
        Ok(workloads) => if upkeep == Upkeep::List {
            Reply::Data {
                tag: list_tag(kind),
                payload: <Vec<WorkloadStatus> as Wire>::wire(workloads),
            }
        } else {
            Reply::Done
        },
    }
}

/// The answer when the backend for `kind` has done what was asked, or why it
/// has not. The workloads that it gives count where they were to be listed.
pub fn upkeep_reply(
    kind: VirtKind,
    upkeep: Upkeep,
    outcome: Result<Vec<WorkloadStatus>, String>,
) -> (r: ControlReply)
    ensures
        r.deep_view() == upkeep_answer(
            kind,
            upkeep,
            match outcome {
                Ok(workloads) => Ok(workloads.deep_view()),
                Err(message) => Err(message@),
            },
        ),
{
    match outcome {
        Err(message) => ControlReply::Error { message },
        Ok(workloads) => {
            if upkeep == Upkeep::List {
                let tag = match kind {
                    VirtKind::Kvm => "vm.list".to_owned(),
                    VirtKind::Lxc => "lxc.list".to_owned(),
                    VirtKind::Container => "ct.list".to_owned(),
                };
                ControlReply::Data { tag, payload: wire::to_vec(&workloads) }
            } else {
                ControlReply::Done
            }
        },
    }
}

/// What the daemon does with a request.
pub open spec fn virt_step(payload: Seq<u8>) -> VirtStep {
    match control::verdict(payload) {
        Verdict::Reply(reply) => VirtStep::Reply(reply),
        Verdict::Exit => VirtStep::Exit,
        Verdict::Custom { tag, payload } => command_step(tag, payload),
    }
}

/// Decides about a request.
pub fn virt_request(payload: &[u8]) -> (r: VirtAction)
    ensures
        r.deep_view() == virt_step(payload@),
{
    match read_request(payload) {
        Request::Reply(reply) => VirtAction::Reply(reply),
        Request::Exit => VirtAction::Exit,
        Request::Custom { tag, payload } => handle_command(tag.as_str(), payload.as_slice()),
    }
}

/// Whether `tag` is a command that creates a workload.
pub open spec fn is_create(tag: Seq<char>) -> bool {
    tag == "vm.create"@ || tag == "lxc.create"@ || tag == "ct.create"@
}

/// Whether `tag` is a command of the daemon.
pub open spec fn is_command(tag: Seq<char>) -> bool {
    is_create(tag) || upkeep_of(tag) is Some
}

/// A command of the daemon is never refused as unknown: if it is refused at
/// all, then for its payload, and only if a workload is to be created and the
/// payload describes none. What is not a command is refused as unknown.
pub proof fn commands_are_known(tag: Seq<char>, payload: Seq<u8>)
    ensures
        command_step(tag, payload) == VirtStep::Reply(control::unknown_tag(tag)) <==> !is_command(
            tag,
        ),
        is_command(tag) ==> (command_step(tag, payload) matches VirtStep::Reply(
            Reply::Error { message },
        ) ==> message == "invalid payload"@ && is_create(tag) && wire::front::<WorkloadSpec>(
            payload,
        ) is Err),
{
    reveal_strlit("invalid payload");
    reveal_strlit("unknown tag: ");
    assert("invalid payload"@[0] == 'i');
    assert(("unknown tag: "@ + tag)[0] == 'u');
}

/// A list of workloads is read back as the workloads that the backend gave.
pub proof fn listed_workloads_are_read_back(kind: VirtKind, workloads: Seq<Status>)
    requires
        <Vec<WorkloadStatus> as Wire>::fits(workloads),
    ensures
        upkeep_answer(kind, Upkeep::List, Ok(workloads)) matches Reply::Data { tag, payload }
            && tag == list_tag(kind) && wire::front::<Vec<WorkloadStatus>>(payload) == Ok::<
            Seq<Status>,
            Seq<char>,
        >(workloads),
{
    wire::lemma_front_of_wire::<Vec<WorkloadStatus>>(workloads, seq![]);
}

proof fn lemma_tags_differ()
    ensures
        "vm.create"@ != "lxc.create"@,
        "vm.create"@ != "ct.create"@,
        "lxc.create"@ != "ct.create"@,
        forall|t: Seq<char>| #[trigger] upkeep_of(t) is Some ==> !is_create(t),
{
    reveal_strlit("vm.create");
    reveal_strlit("lxc.create");
    reveal_strlit("ct.create");
    reveal_strlit("vm.delete");
    reveal_strlit("vm.start");
    reveal_strlit("vm.stop");
    reveal_strlit("vm.list");
    reveal_strlit("lxc.delete");
    reveal_strlit("lxc.start");
    reveal_strlit("lxc.stop");
    reveal_strlit("lxc.list");
    reveal_strlit("ct.delete");
    reveal_strlit("ct.start");
    reveal_strlit("ct.stop");
    reveal_strlit("ct.list");
    assert("vm.create"@[0] == 'v' && "vm.create"@[3] == 'c');
    assert("lxc.create"@[0] == 'l' && "lxc.create"@[4] == 'c');
    assert("ct.create"@[0] == 'c' && "ct.create"@[3] == 'c');
    assert("vm.delete"@[0] == 'v' && "vm.delete"@[3] == 'd');
    assert("vm.start"@.len() == 8 && "vm.stop"@.len() == 7 && "vm.list"@.len() == 7);
    assert("lxc.delete"@[0] == 'l' && "lxc.delete"@[4] == 'd');
    assert("lxc.start"@.len() == 9 && "lxc.start"@[0] == 'l');
    assert("lxc.stop"@.len() == 8 && "lxc.list"@.len() == 8);
    assert("ct.delete"@[0] == 'c' && "ct.delete"@[3] == 'd');
    assert("ct.start"@.len() == 8 && "ct.stop"@.len() == 7 && "ct.list"@.len() == 7);
}

/// A workload that is asked for is created as it was described: a virtual
/// machine under its name and with its memory, a container of containerd under
/// its name and from its image; an LXC container is answered as done.
pub proof fn workloads_are_created_as_asked(w: Workload, payload: Seq<u8>)
    requires
        WorkloadSpec::fits(w),
        wire::front::<WorkloadSpec>(payload) == Ok::<Workload, Seq<char>>(w),
        ControlOp::fits((Op::Custom { tag: "vm.create"@, payload })),
        ControlOp::fits((Op::Custom { tag: "lxc.create"@, payload })),
        ControlOp::fits((Op::Custom { tag: "ct.create"@, payload })),
    ensures
        virt_step(ControlOp::wire((Op::Custom { tag: "vm.create"@, payload }))) == (
        VirtStep::CreateVm { id: w.id, memory_mb: w.memory_mb }),
        virt_step(ControlOp::wire((Op::Custom { tag: "lxc.create"@, payload }))) == VirtStep::Reply(
            Reply::Done,
        ),
        virt_step(ControlOp::wire((Op::Custom { tag: "ct.create"@, payload }))) == (
        VirtStep::CreateCt { id: w.id, image: w.image }),
{
    control::custom_request_arrives("vm.create"@, payload);
    control::custom_request_arrives("lxc.create"@, payload);
    control::custom_request_arrives("ct.create"@, payload);
    lemma_tags_differ();
}

/// A payload that describes no workload is refused as such by each of the
/// commands that create one.
pub proof fn bad_workloads_are_refused(tag: Seq<char>, payload: Seq<u8>)
    requires
        tag == "vm.create"@ || tag == "lxc.create"@ || tag == "ct.create"@,
        wire::front::<WorkloadSpec>(payload) is Err,
        ControlOp::fits((Op::Custom { tag, payload })),
    ensures
        virt_step(ControlOp::wire((Op::Custom { tag, payload }))) == VirtStep::Reply(
            Reply::Error { message: "invalid payload"@ },
        ),
{
    control::custom_request_arrives(tag, payload);
}

/// The letters in front of the dot of a command.
pub open spec fn prefix_of(kind: VirtKind) -> Seq<char> {
    match kind {
        VirtKind::Kvm => "vm"@,
        VirtKind::Lxc => "lxc"@,
        VirtKind::Container => "ct"@,
    }
}

/// The word behind the dot of a command.
pub open spec fn word_of(upkeep: Upkeep) -> Seq<char> {
    match upkeep {
        Upkeep::Delete => "delete"@,
        Upkeep::Start => "start"@,
        Upkeep::Stop => "stop"@,
        Upkeep::List => "list"@,
    }
}

/// What the command for a kind of workload asks for with a word reaches the
/// backend for that kind, with the payload as it was sent.
pub proof fn upkeep_reaches_its_backend(kind: VirtKind, upkeep: Upkeep, payload: Seq<u8>)
    requires
        ControlOp::fits(
            (Op::Custom { tag: prefix_of(kind) + "."@ + word_of(upkeep), payload }),
        ),
    ensures
        virt_step(
            ControlOp::wire(
                (Op::Custom { tag: prefix_of(kind) + "."@ + word_of(upkeep), payload }),
            ),
        ) == (VirtStep::Tend { kind, upkeep, payload }),
{
    let tag = prefix_of(kind) + "."@ + word_of(upkeep);
    control::custom_request_arrives(tag, payload);
    lemma_upkeep_tags(kind, upkeep);
    lemma_tags_differ();
}

proof fn lemma_upkeep_tags(kind: VirtKind, upkeep: Upkeep)
    ensures
        upkeep_of(prefix_of(kind) + "."@ + word_of(upkeep)) == Some((kind, upkeep)),
{
    reveal_strlit("vm");
    reveal_strlit("lxc");
    reveal_strlit("ct");
    reveal_strlit(".");
    reveal_strlit("delete");
    reveal_strlit("start");
    reveal_strlit("stop");
    reveal_strlit("list");
    reveal_strlit("vm.delete");
    reveal_strlit("vm.start");
    reveal_strlit("vm.stop");
    reveal_strlit("vm.list");
    reveal_strlit("lxc.delete");
    reveal_strlit("lxc.start");
    reveal_strlit("lxc.stop");
    reveal_strlit("lxc.list");
    reveal_strlit("ct.delete");
    reveal_strlit("ct.start");
    reveal_strlit("ct.stop");
    reveal_strlit("ct.list");
    let tag = prefix_of(kind) + "."@ + word_of(upkeep);
    let n = prefix_of(kind).len() as int;
    assert(tag[0] == prefix_of(kind)[0]);
    assert(tag[n + 1] == word_of(upkeep)[0]);
    assert(tag[n + 2] == word_of(upkeep)[1]);
    assert(tag[n + 3] == word_of(upkeep)[2]);
    assert(tag.len() == n + 1 + word_of(upkeep).len());
    match (kind, upkeep) {
        (VirtKind::Kvm, Upkeep::Delete) => {
            assert(tag =~= "vm.delete"@);
        },
        (VirtKind::Kvm, Upkeep::Start) => {
            assert(tag =~= "vm.start"@);
        },
        (VirtKind::Kvm, Upkeep::Stop) => {
            assert(tag =~= "vm.stop"@);
        },
        (VirtKind::Kvm, Upkeep::List) => {
            assert(tag =~= "vm.list"@);
        },
        (VirtKind::Lxc, Upkeep::Delete) => {
            assert(tag =~= "lxc.delete"@);
        },
        (VirtKind::Lxc, Upkeep::Start) => {
            assert(tag =~= "lxc.start"@);
        },
        (VirtKind::Lxc, Upkeep::Stop) => {
            assert(tag =~= "lxc.stop"@);
        },
        (VirtKind::Lxc, Upkeep::List) => {
            assert(tag =~= "lxc.list"@);
        },
        (VirtKind::Container, Upkeep::Delete) => {
            assert(tag =~= "ct.delete"@);
        },
        (VirtKind::Container, Upkeep::Start) => {
            assert(tag =~= "ct.start"@);
        },
        (VirtKind::Container, Upkeep::Stop) => {
            assert(tag =~= "ct.stop"@);
        },
        (VirtKind::Container, Upkeep::List) => {
            assert(tag =~= "ct.list"@);
        },
    }
}

/// What a backend could not do is answered with its reason, what it did with
/// done, and a list with the workloads, under the name of the command.
pub proof fn upkeep_is_answered(
    kind: VirtKind,
    upkeep: Upkeep,
    workloads: Seq<Status>,
    message: Seq<char>,
)
    requires
        <Vec<WorkloadStatus> as Wire>::fits(workloads),
    ensures
        upkeep_answer(kind, upkeep, Err(message)) == (Reply::Error { message }),
        upkeep != Upkeep::List ==> upkeep_answer(kind, upkeep, Ok(workloads)) == Reply::Done,
        upkeep == Upkeep::List ==> (upkeep_answer(kind, upkeep, Ok(workloads)) matches Reply::Data {
            tag,
            payload,
        } && tag == prefix_of(kind) + ".list"@ && wire::front::<Vec<WorkloadStatus>>(payload)
            == Ok::<Seq<Status>, Seq<char>>(workloads)),
{
    wire::lemma_front_of_wire::<Vec<WorkloadStatus>>(workloads, seq![]);
    lemma_list_tag(kind);
}

proof fn lemma_list_tag(kind: VirtKind)
    ensures
        list_tag(kind) == prefix_of(kind) + ".list"@,
{
    reveal_strlit(".list");
    match kind {
        VirtKind::Kvm => {
            reveal_strlit("vm");
            reveal_strlit("vm.list");
            assert("vm"@ + ".list"@ =~= "vm.list"@);
        },
        VirtKind::Lxc => {
            reveal_strlit("lxc");
            reveal_strlit("lxc.list");
            assert("lxc"@ + ".list"@ =~= "lxc.list"@);
        },
        VirtKind::Container => {
            reveal_strlit("ct");
            reveal_strlit("ct.list");
            assert("ct"@ + ".list"@ =~= "ct.list"@);
        },
    }
}

/// Any other command is refused as unknown, and requests that are not the
/// daemon's own are answered as by any daemon.
pub proof fn other_requests_are_refused(
    tag: Seq<char>,
    inner: Seq<u8>,
    rest: Seq<u8>,
    unread: Seq<u8>,
)
    requires
        ControlOp::fits((Op::Custom { tag, payload: inner })),
        tag != "vm.create"@ && tag != "lxc.create"@ && tag != "ct.create"@,
        forall|kind: VirtKind, upkeep: Upkeep|
            tag != #[trigger] prefix_of(kind) + "."@ + #[trigger] word_of(upkeep),
    ensures
        virt_step(ControlOp::wire((Op::Custom { tag, payload: inner }))) == VirtStep::Reply(
            Reply::Error { message: "unknown tag: "@ + tag },
        ),
        virt_step(ControlOp::wire(Op::Ping) + rest) == VirtStep::Reply(Reply::Done),
        virt_step(ControlOp::wire(Op::Shutdown) + rest) == VirtStep::Exit,
        virt_step(ControlOp::wire(Op::GetNodes) + rest) == VirtStep::Reply(
            Reply::Error { message: "unsupported op"@ },
        ),
        wire::front::<ControlOp>(unread) matches Err(message) ==> virt_step(unread)
            == VirtStep::Reply(Reply::Error { message }),
{
    control::custom_request_arrives(tag, inner);
    control::plain_requests(unread, rest);
    if let Some((kind, upkeep)) = upkeep_of(tag) {
        lemma_tag_is_spelled(kind, upkeep, tag);
        assert(tag != prefix_of(kind) + "."@ + word_of(upkeep));
    }
}

proof fn lemma_tag_is_spelled(kind: VirtKind, upkeep: Upkeep, tag: Seq<char>)
    requires
        upkeep_of(tag) == Some((kind, upkeep)),
    ensures
        tag == prefix_of(kind) + "."@ + word_of(upkeep),
{
    reveal_strlit("vm");
    reveal_strlit("lxc");
    reveal_strlit("ct");
    reveal_strlit(".");
    reveal_strlit("delete");
    reveal_strlit("start");
    reveal_strlit("stop");
    reveal_strlit("list");
    reveal_strlit("vm.delete");
    reveal_strlit("vm.start");
    reveal_strlit("vm.stop");
    reveal_strlit("vm.list");
    reveal_strlit("lxc.delete");
    reveal_strlit("lxc.start");
    reveal_strlit("lxc.stop");
    reveal_strlit("lxc.list");
    reveal_strlit("ct.delete");
    reveal_strlit("ct.start");
    reveal_strlit("ct.stop");
    reveal_strlit("ct.list");
    assert(tag =~= prefix_of(kind) + "."@ + word_of(upkeep));
}

/// The kinds of workload are numbered, and there are no others.
pub proof fn kinds_are_numbered(other: u32, rest: Seq<u8>)
    requires
        other > 2,
    ensures
        VirtKind::wire(VirtKind::Kvm) == seq![0u8],
        VirtKind::wire(VirtKind::Lxc) == seq![1u8],
        VirtKind::wire(VirtKind::Container) == seq![2u8],
        VirtKind::parse(<u32 as Wire>::wire(other) + rest) is Err,
{
    <u32 as Wire>::round_trip(other, rest);
}

/// A workload is sent as its name, kind, image, processors, memory and what else
/// is said of it, in this order.
pub proof fn workload_layout(w: Workload)
    ensures
        WorkloadSpec::wire(w) == <String as Wire>::wire(w.id) + VirtKind::wire(w.kind)
            + <String as Wire>::wire(w.image) + wire::varint_bytes(w.cpus as nat)
            + wire::varint_bytes(w.memory_mb as nat) + <Vec<(String, String)> as Wire>::wire(
            w.extra,
        ),
{
    wire::lemma_six(
        <String as Wire>::wire(w.id),
        VirtKind::wire(w.kind),
        <String as Wire>::wire(w.image),
        wire::varint_bytes(w.cpus as nat),
        wire::varint_bytes(w.memory_mb as nat),
        <Vec<(String, String)> as Wire>::wire(w.extra),
    );
}

/// The status of a workload is sent as its name, kind, whether it runs and the
/// number of its process, in this order.
pub proof fn status_layout(s: Status)
    ensures
        WorkloadStatus::wire(s) == <String as Wire>::wire(s.id) + VirtKind::wire(s.kind) + seq![
            if s.running {
                1u8
            } else {
                0u8
            },
        ] + <Option<i32> as Wire>::wire(s.pid),
{
    wire::lemma_four(
        <String as Wire>::wire(s.id),
        VirtKind::wire(s.kind),
        <bool as Wire>::wire(s.running),
        <Option<i32> as Wire>::wire(s.pid),
    );
}

/// Bytes behind the workload that is to be created do not count.
pub proof fn bytes_behind_do_not_count(tag: Seq<char>, w: Workload, rest: Seq<u8>)
    requires
        tag == "vm.create"@ || tag == "lxc.create"@ || tag == "ct.create"@,
        WorkloadSpec::fits(w),
        ControlOp::fits((Op::Custom { tag, payload: WorkloadSpec::wire(w) })),
        ControlOp::fits((Op::Custom { tag, payload: WorkloadSpec::wire(w) + rest })),
    ensures
        virt_step(ControlOp::wire((Op::Custom { tag, payload: WorkloadSpec::wire(w) + rest })))
            == virt_step(ControlOp::wire((Op::Custom { tag, payload: WorkloadSpec::wire(w) }))),
{
    control::custom_request_arrives(tag, WorkloadSpec::wire(w));
    control::custom_request_arrives(tag, WorkloadSpec::wire(w) + rest);
    wire::lemma_front_of_wire::<WorkloadSpec>(w, rest);
}

} // verus!
