//! Decisions of the units that run between the terminal and the connection.
//!
//! The loops that read, write, resize and sleep live with the caller; each
//! hands what it read to a function here and carries out what comes back.

use crate::buffer::{buf_new, bytes_from_vec, bytes_mut_view, bytes_view};
use crate::frame::{
    buildable, decode_step, encode, encoding, lemma_round_trip, Frame, FrameError, FrameModel,
    Outcome,
};
use bytes::{Bytes, BytesMut};
use vstd::prelude::*;

verus! {

/// What the connection asks of the terminal.
pub enum PtyAction {
    /// Write these bytes to the terminal.
    Write(Bytes),
    /// Resize the terminal to this many columns and rows.
    Resize(u16, u16),
}

/// What an action means.
pub enum PtyActionModel {
    Write(Seq<u8>),
    Resize(u16, u16),
}

impl View for PtyAction {
    type V = PtyActionModel;

    open spec fn view(&self) -> PtyActionModel {
        match *self {
            PtyAction::Write(b) => PtyActionModel::Write(bytes_view(b)),
            PtyAction::Resize(cols, rows) => PtyActionModel::Resize(cols, rows),
        }
    }
}

/// The action that a frame from the connection calls for.
///
/// `Name` and `Cwd` frames only travel from the terminal side to the
/// connection; arriving the other way they call for nothing, and the caller
/// treats them as a protocol error.
pub open spec fn action_for(f: FrameModel) -> Option<PtyActionModel> {
    match f {
        FrameModel::Data(p) => Some(PtyActionModel::Write(p)),
        FrameModel::Size(cols, rows) => Some(PtyActionModel::Resize(cols, rows)),
        FrameModel::Name(_) => None,
        FrameModel::Cwd(_) => None,
    }
}

/// A `Size` frame sent over the connection resizes the terminal to the same
/// columns and rows, in that order.
pub proof fn lemma_size_reaches_resize(cols: u16, rows: u16, rest: Seq<u8>)
    ensures
        decode_step(0, encoding(FrameModel::Size(cols, rows)) + rest) == (
            0nat,
            rest,
            Outcome::Got(FrameModel::Size(cols, rows)),
        ),
        action_for(FrameModel::Size(cols, rows)) == Some(PtyActionModel::Resize(cols, rows)),
{
    lemma_round_trip(FrameModel::Size(cols, rows), rest);
}

/// Turns a frame read from the connection into what the terminal must do.
pub fn pty_action(frame: Frame) -> (r: Option<PtyAction>)
    ensures
        r matches Some(a) ==> action_for(frame@) == Some(a@),
        r is None ==> action_for(frame@) is None,
{
    match frame {
        Frame::Data(bytes) => Some(PtyAction::Write(bytes)),
        Frame::Size(cols, rows) => Some(PtyAction::Resize(cols, rows)),
        Frame::Name(_) => None,
        Frame::Cwd(_) => None,
    }
}

/// The bytes to send for what was read from the terminal: one `Data` frame,
/// to be written to the connection in a single write.
pub fn data_frame(read: Vec<u8>) -> (r: Result<BytesMut, FrameError>)
    ensures
        r is Ok <==> buildable(FrameModel::Data(read@)),
        r matches Ok(b) ==> bytes_mut_view(b) == encoding(FrameModel::Data(read@)),
        r is Err ==> r == Err::<BytesMut, FrameError>(FrameError::PayloadTooLarge),
{
    if read.len() >= 0xffff_ffffusize || read.len() > isize::MAX as usize - 5 {
        return Err(FrameError::PayloadTooLarge);
    }
    let bytes = bytes_from_vec(read);
    let mut buf = buf_new();
    let res = encode(Frame::Data(bytes), &mut buf);
    match res {
        Ok(()) => Ok(buf),
        Err(e) => Err(e),
    }
}

/// The value that a poller watches.
#[derive(Debug, Clone, Copy, PartialEq, Eq, Structural)]
pub enum Watch {
    /// The name of the terminal's foreground process, sent as `Name` frames.
    ProcessName,
    /// The working directory of that process, sent as `Cwd` frames.
    WorkingDir,
}

/// The frame that reports `value` for the watched value `kind`.
pub open spec fn update_frame(kind: Watch, value: Seq<u8>) -> FrameModel {
    match kind {
        Watch::ProcessName => FrameModel::Name(value),
        Watch::WorkingDir => FrameModel::Cwd(value),
    }
}

/// The values that a poller reports when it starts from `last` and observes
/// `obs` in turn: each observation that differs from the one reported before it.
pub open spec fn emitted(last: Seq<u8>, obs: Seq<Seq<u8>>) -> Seq<Seq<u8>>
    decreases obs.len(),
{
    if obs.len() == 0 {
        Seq::empty()
    } else if obs[0] == last {
        emitted(last, obs.skip(1))
    } else {
        seq![obs[0]] + emitted(obs[0], obs.skip(1))
    }
}

/// Sends an update only when the watched value changes.
pub struct Poller {
    kind: Watch,
    last: Vec<u8>,
}

fn same_bytes(a: &Vec<u8>, b: &Vec<u8>) -> (r: bool)
    ensures
        r == (a@ == b@),
{
    if a.len() != b.len() {
        return false;
    }
    let mut i: usize = 0;
    while i < a.len()
        invariant
            a@.len() == b@.len(),
            i <= a@.len(),
            a@.take(i as int) == b@.take(i as int),
        decreases a@.len() - i,
    {
        if a[i] != b[i] {
            assert(a@[i as int] != b@[i as int]);
            return false;
        }
        assert(a@.take(i + 1) =~= a@.take(i as int).push(a@[i as int]));
        assert(b@.take(i + 1) =~= b@.take(i as int).push(b@[i as int]));
        i = i + 1;
    }
    assert(a@ =~= a@.take(i as int));
    assert(b@ =~= b@.take(i as int));
    true
}

fn copy_bytes(v: &Vec<u8>) -> (r: Vec<u8>)
    ensures
        r@ == v@,
{
    let mut out: Vec<u8> = Vec::new();
    let mut i: usize = 0;
    while i < v.len()
        invariant
            i <= v@.len(),
            out@ == v@.take(i as int),
        decreases v@.len() - i,
    {
        out.push(v[i]);
        assert(v@.take(i + 1) =~= v@.take(i as int).push(v@[i as int]));
        i = i + 1;
    }
    assert(v@ =~= v@.take(i as int));
    out
}

impl Poller {
    /// The value watched.
    pub closed spec fn kind(&self) -> Watch {
        self.kind
    }

    /// The value last reported; empty before the first report.
    pub closed spec fn last(&self) -> Seq<u8> {
        self.last@
    }

    pub fn new(kind: Watch) -> (r: Poller)
        ensures
            r.kind() == kind,
            r.last() == Seq::<u8>::empty(),
    {
        Poller { kind, last: Vec::new() }
    }

    /// Takes the value that a query returned. When it differs from the value
    /// last reported, returns the bytes of the frame that reports it, to be
    /// written to the connection in a single write, and remembers it.
    /// Otherwise returns nothing and remembers what it did.
    pub fn observe(&mut self, value: Vec<u8>) -> (r: Result<Option<BytesMut>, FrameError>)
        ensures
            final(self).kind() == old(self).kind(),
            value@ == old(self).last() ==> r == Ok::<Option<BytesMut>, FrameError>(None)
                && final(self).last() == old(self).last(),
            value@ != old(self).last() && buildable(update_frame(old(self).kind(), value@)) ==> (
            r matches Ok(Some(b)) && bytes_mut_view(b) == encoding(
                update_frame(old(self).kind(), value@),
            ) && final(self).last() == value@),
            value@ != old(self).last() && !buildable(update_frame(old(self).kind(), value@)) ==> (r
                == Err::<Option<BytesMut>, FrameError>(FrameError::PayloadTooLarge)
                && final(self).last() == old(self).last()),
    {
        if same_bytes(&value, &self.last) {
            return Ok(None);
        }
        if value.len() >= 0xffff_ffffusize || value.len() > isize::MAX as usize - 5 {
            return Err(FrameError::PayloadTooLarge);
        }
        let kept = copy_bytes(&value);
        let bytes = bytes_from_vec(value);
        let frame = match self.kind {
            Watch::ProcessName => Frame::Name(bytes),
            Watch::WorkingDir => Frame::Cwd(bytes),
        };
        let mut buf = buf_new();
        match encode(frame, &mut buf) {
            Ok(()) => {
                self.last = kept;
                Ok(Some(buf))
            },
            Err(e) => Err(e),
        }
    }
}

/// A poller reports a value only when it differs from the one it reported
/// before: no two reports in a row are equal, and the first differs from the
/// value it started from.
pub proof fn lemma_reports_change(last: Seq<u8>, obs: Seq<Seq<u8>>)
    ensures
        emitted(last, obs).len() > 0 ==> emitted(last, obs)[0] != last,
        forall|i: int|
            0 <= i < emitted(last, obs).len() - 1 ==> #[trigger] emitted(last, obs)[i] != emitted(
                last,
                obs,
            )[i + 1],
    decreases obs.len(),
{
    if obs.len() > 0 {
        lemma_reports_change(last, obs.skip(1));
        lemma_reports_change(obs[0], obs.skip(1));
        if obs[0] != last {
            let e = emitted(last, obs);
            let t = emitted(obs[0], obs.skip(1));
            assert(e =~= seq![obs[0]] + t);
            assert forall|i: int| 0 <= i < e.len() - 1 implies #[trigger] e[i] != e[i + 1] by {
                if i > 0 {
                    assert(e[i] == t[i - 1] && e[i + 1] == t[i]);
                }
            }
        }
    }
}

/// Observing the same value again and again gives at most one report.
pub proof fn lemma_repeats_report_once(last: Seq<u8>, obs: Seq<Seq<u8>>, v: Seq<u8>)
    requires
        forall|i: int| 0 <= i < obs.len() ==> obs[i] == v,
    ensures
        emitted(last, obs).len() <= 1,
        v != last && obs.len() > 0 ==> emitted(last, obs) == seq![v],
    decreases obs.len(),
{
    if obs.len() > 0 {
        assert forall|i: int| 0 <= i < obs.skip(1).len() implies obs.skip(1)[i] == v by {
            assert(obs.skip(1)[i] == obs[i + 1]);
        }
        lemma_repeats_report_once(last, obs.skip(1), v);
        lemma_repeats_report_once(v, obs.skip(1), v);
        lemma_none_for_same(v, obs.skip(1));
        if obs[0] != last {
            assert(emitted(last, obs) =~= seq![v]);
        }
    }
}

proof fn lemma_none_for_same(v: Seq<u8>, obs: Seq<Seq<u8>>)
    requires
        forall|i: int| 0 <= i < obs.len() ==> obs[i] == v,
    ensures
        emitted(v, obs).len() == 0,
    decreases obs.len(),
{
    if obs.len() > 0 {
        assert forall|i: int| 0 <= i < obs.skip(1).len() implies obs.skip(1)[i] == v by {
            assert(obs.skip(1)[i] == obs[i + 1]);
        }
        lemma_none_for_same(v, obs.skip(1));
    }
}

} // verus!
